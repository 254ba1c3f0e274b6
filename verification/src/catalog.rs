//! The catalog of applications installed on a device.
//!
//! The device answers the catalog query with a document in which each
//! application is one record of the shape `<app … id="ID" …>NAME</app>`.
//! This module finds such records and nothing else: it is a narrow scanner,
//! not a markup parser.

use crate::foreign::{decode_entities, html_decoded};
use crate::text::{chars_of, has_at, starts_at};
use vstd::prelude::*;
use vstd::string::*;

verus! {

/// What opens a record.
pub open spec fn open_word() -> Seq<char> {
    "<app"@
}

/// What stands before the identifier inside the opening tag.
pub open spec fn key_word() -> Seq<char> {
    "id=\""@
}

/// What closes a record.
pub open spec fn close_word() -> Seq<char> {
    "</app>"@
}

/// No position of `t` in `from..to` holds `c`.
pub open spec fn free_of(t: Seq<char>, from: int, to: int, c: char) -> bool {
    forall|i: int| from <= i < to ==> #[trigger] t[i] != c
}

/// Where a record lies in a document. All five are positions of characters:
/// of the `<` that opens the record, of the `i` of `id="`, of the quote that
/// ends the identifier, of the `>` that ends the opening tag and of the `<`
/// of `</app>`. So the identifier begins at `key + 4`, the name at
/// `tag_end + 1`, and the record ends before `name_end + 6`.
pub struct RecordSpan {
    pub start: int,
    pub key: int,
    pub id_end: int,
    pub tag_end: int,
    pub name_end: int,
}

/// The characters of `t` at the positions of `r` form a record:
/// `<app`, then anything but `>`, then `id="`, a non-empty identifier
/// without a quote, the closing quote, anything but `>`, then `>`, a name
/// without a line feed that runs up to the first `</app>`.
pub open spec fn is_record(t: Seq<char>, r: RecordSpan) -> bool {
    &&& has_at(t, r.start, open_word())
    &&& r.start + 4 <= r.key
    &&& free_of(t, r.start + 4, r.key, '>')
    &&& has_at(t, r.key, key_word())
    &&& r.key + 4 < r.id_end < t.len()
    &&& free_of(t, r.key + 4, r.id_end, '"')
    &&& t[r.id_end] == '"'
    &&& r.id_end < r.tag_end < t.len()
    &&& free_of(t, r.id_end + 1, r.tag_end, '>')
    &&& t[r.tag_end] == '>'
    &&& r.tag_end < r.name_end
    &&& r.name_end + 6 <= t.len()
    &&& free_of(t, r.tag_end + 1, r.name_end, '\n')
    &&& has_at(t, r.name_end, close_word())
    &&& forall|j: int| r.tag_end < j < r.name_end ==> !has_at(t, j, close_word())
}

/// `r` is the record that is read at its start: among the records that
/// start there, the one whose `id="` stands last.
pub open spec fn best_at(t: Seq<char>, r: RecordSpan) -> bool {
    &&& is_record(t, r)
    &&& forall|o: RecordSpan| #[trigger] is_record(t, o) && o.start == r.start ==> o.key <= r.key
}

/// `r` is the first record to read at or after `from`.
pub open spec fn leads(t: Seq<char>, from: int, r: RecordSpan) -> bool {
    &&& from <= r.start
    &&& best_at(t, r)
    &&& forall|o: RecordSpan| #[trigger] is_record(t, o) && from <= o.start ==> r.start <= o.start
}

/// The records of `t` from position `from` on, in the order of the
/// document: the first one to read, then those that follow its end.
pub open spec fn records_from(t: Seq<char>, from: int) -> Seq<RecordSpan>
    decreases t.len() - from,
{
    if exists|r: RecordSpan| leads(t, from, r) {
        let r = choose|r: RecordSpan| leads(t, from, r);
        seq![r] + records_from(t, r.name_end + 6)
    } else {
        Seq::empty()
    }
}

/// An entry of the catalog, as contracts see it.
pub struct EntryView {
    pub id: Seq<char>,
    pub name: Seq<char>,
}

/// The entry that the record `r` of `t` stands for: the identifier as it is
/// written, and the name with its character references decoded.
pub open spec fn entry_of(t: Seq<char>, r: RecordSpan) -> EntryView {
    EntryView {
        id: t.subrange(r.key + 4, r.id_end),
        name: html_decoded(t.subrange(r.tag_end + 1, r.name_end)),
    }
}

/// Some entry of `s` has the identifier `id`.
pub open spec fn has_id(s: Seq<EntryView>, id: Seq<char>) -> bool {
    exists|i: int| 0 <= i < s.len() && (#[trigger] s[i]).id == id
}

/// `s` without the entries whose identifier an earlier entry has.
pub open spec fn first_of_each(s: Seq<EntryView>) -> Seq<EntryView>
    decreases s.len(),
{
    if s.len() == 0 {
        s
    } else {
        let head = first_of_each(s.drop_last());
        if has_id(head, s.last().id) {
            head
        } else {
            head.push(s.last())
        }
    }
}

/// The entries of a sequence of records of `t`.
pub open spec fn entries_of(t: Seq<char>, records: Seq<RecordSpan>) -> Seq<EntryView> {
    Seq::new(records.len(), |i: int| entry_of(t, records[i]))
}

/// The catalog that the document `t` holds: one entry for each record, in
/// the order of the document, the first one only where several records have
/// the same identifier.
pub open spec fn catalog(t: Seq<char>) -> Seq<EntryView> {
    first_of_each(entries_of(t, records_from(t, 0)))
}

/// No two entries of `s` have the same identifier.
pub open spec fn distinct_ids(s: Seq<EntryView>) -> bool {
    forall|i: int, j: int| 0 <= i < j < s.len() ==> (#[trigger] s[i]).id != (#[trigger] s[j]).id
}

/// An application of the catalog.
#[derive(Debug)]
pub struct AppEntry {
    /// The identifier by which the application is launched.
    pub id: String,
    /// The name to show.
    pub name: String,
}

impl AppEntry {
    pub open spec fn view(&self) -> EntryView {
        EntryView { id: self.id@, name: self.name@ }
    }
}

/// The entries of a vector, as contracts see them.
pub open spec fn entry_views(v: Seq<AppEntry>) -> Seq<EntryView> {
    Seq::new(v.len(), |i: int| v[i]@)
}

/// Two records with the same start and the same place of `id="` are the
/// same record.
pub proof fn lemma_record_determined(t: Seq<char>, a: RecordSpan, b: RecordSpan)
    requires
        is_record(t, a),
        is_record(t, b),
        a.start == b.start,
        a.key == b.key,
    ensures
        a == b,
{
    assert(a.id_end == b.id_end) by {
        if a.id_end < b.id_end {
            assert(t[a.id_end] != '"');
        } else if b.id_end < a.id_end {
            assert(t[b.id_end] != '"');
        }
    }
    assert(a.tag_end == b.tag_end) by {
        if a.tag_end < b.tag_end {
            assert(t[a.tag_end] != '>');
        } else if b.tag_end < a.tag_end {
            assert(t[b.tag_end] != '>');
        }
    }
    assert(a.name_end == b.name_end) by {
        if a.name_end < b.name_end {
            assert(!has_at(t, a.name_end, close_word()));
        } else if b.name_end < a.name_end {
            assert(!has_at(t, b.name_end, close_word()));
        }
    }
}

/// There is at most one first record to read from a position.
pub proof fn lemma_leads_unique(t: Seq<char>, from: int, a: RecordSpan, b: RecordSpan)
    requires
        leads(t, from, a),
        leads(t, from, b),
    ensures
        a == b,
{
    assert(is_record(t, a) && is_record(t, b));
    assert(a.start == b.start);
    assert(a.key == b.key);
    lemma_record_determined(t, a, b);
}

/// The records from `from` on are the first one to read and those after
/// it.
pub proof fn lemma_records_step(t: Seq<char>, from: int, r: RecordSpan)
    requires
        leads(t, from, r),
    ensures
        records_from(t, from) == seq![r] + records_from(t, r.name_end + 6),
{
    let c = choose|c: RecordSpan| leads(t, from, c);
    lemma_leads_unique(t, from, c, r);
}

/// Where no record starts at or after `from`, there are no records to read.
pub proof fn lemma_records_none(t: Seq<char>, from: int)
    requires
        forall|r: RecordSpan| #[trigger] is_record(t, r) ==> r.start < from,
    ensures
        records_from(t, from) == Seq::<RecordSpan>::empty(),
{
    if exists|r: RecordSpan| leads(t, from, r) {
        let c = choose|c: RecordSpan| leads(t, from, c);
        assert(is_record(t, c));
    }
}

/// The records that are read stand in the document one after the other:
/// each of them is a record, none starts before `from`, and each starts
/// where the one before it has ended, or later.
pub proof fn lemma_records_in_order(t: Seq<char>, from: int)
    ensures
        forall|i: int|
            0 <= i < records_from(t, from).len() ==> is_record(
                t,
                #[trigger] records_from(t, from)[i],
            ) && from <= records_from(t, from)[i].start,
        forall|i: int, j: int|
            0 <= i < j < records_from(t, from).len() ==> (#[trigger] records_from(
                t,
                from,
            )[i]).name_end + 6 <= (#[trigger] records_from(t, from)[j]).start,
    decreases t.len() - from,
{
    if exists|r: RecordSpan| leads(t, from, r) {
        let r = choose|r: RecordSpan| leads(t, from, r);
        let rest = records_from(t, r.name_end + 6);
        let all = records_from(t, from);
        assert(is_record(t, r));
        lemma_records_in_order(t, r.name_end + 6);
        assert(all == seq![r] + rest);
        assert forall|i: int| 0 <= i < all.len() implies is_record(t, #[trigger] all[i]) && from
            <= all[i].start by {
            if i > 0 {
                assert(all[i] == rest[i - 1]);
            }
        }
        assert forall|i: int, j: int| 0 <= i < j < all.len() implies (#[trigger] all[i]).name_end
            + 6 <= (#[trigger] all[j]).start by {
            assert(all[j] == rest[j - 1]);
            if i > 0 {
                assert(all[i] == rest[i - 1]);
            }
        }
    }
}

/// The three words of a record, as vectors of characters.
struct Words {
    open: Vec<char>,
    key: Vec<char>,
    close: Vec<char>,
}

impl Words {
    spec fn valid(&self) -> bool {
        &&& self.open@ == open_word()
        &&& self.key@ == key_word()
        &&& self.close@ == close_word()
        &&& self.open@.len() == 4
        &&& self.key@.len() == 4
        &&& self.close@.len() == 6
        &&& free_of(self.key@, 0, 4, '>')
        &&& self.close@[0] == '<'
    }

    fn new() -> (w: Words)
        ensures
            w.valid(),
    {
        proof {
            reveal_strlit("<app");
            reveal_strlit("id=\"");
            reveal_strlit("</app>");
        }
        Words { open: chars_of("<app"), key: chars_of("id=\""), close: chars_of("</app>") }
    }
}

/// Where a record lies, in machine integers.
struct Span {
    start: usize,
    key: usize,
    id_end: usize,
    tag_end: usize,
    name_end: usize,
}

impl Span {
    spec fn view(&self) -> RecordSpan {
        RecordSpan {
            start: self.start as int,
            key: self.key as int,
            id_end: self.id_end as int,
            tag_end: self.tag_end as int,
            name_end: self.name_end as int,
        }
    }
}

/// The first position at or after `from` that holds `c`, or the length of
/// `t`.
fn seek(t: &Vec<char>, from: usize, c: char) -> (at: usize)
    requires
        from <= t.len(),
    ensures
        from <= at <= t.len(),
        free_of(t@, from as int, at as int, c),
        at < t.len() ==> t@[at as int] == c,
{
    let mut at: usize = from;
    while at < t.len() && t[at] != c
        invariant
            from <= at <= t.len(),
            free_of(t@, from as int, at as int, c),
        decreases t.len() - at,
    {
        at += 1;
    }
    at
}

/// Reads the rest of a record whose `<app` stands at `start` and whose
/// `id="` stands at `key`.
#[verifier::loop_isolation(false)]
fn record_with_key(t: &Vec<char>, start: usize, key: usize, w: &Words) -> (r: Option<Span>)
    requires
        w.valid(),
        has_at(t@, start as int, open_word()),
        start + 4 <= key,
        free_of(t@, start + 4, key as int, '>'),
        has_at(t@, key as int, key_word()),
    ensures
        match r {
            Some(s) => s.start == start && s.key == key && is_record(t@, s@),
            None => forall|o: RecordSpan| #[trigger]
                is_record(t@, o) ==> !(o.start == start && o.key == key),
        },
{
    let n = t.len();
    let id_end = seek(t, key + 4, '"');
    if id_end == n || id_end == key + 4 {
        assert forall|o: RecordSpan| #[trigger] is_record(t@, o) implies !(o.start == start
            && o.key == key) by {
            if o.start == start && o.key == key {
                if id_end == n {
                    assert(t@[o.id_end] != '"');
                } else {
                    assert(t@[key + 4] != '"');
                }
            }
        }
        return None;
    }
    let tag_end = seek(t, id_end + 1, '>');
    if tag_end == n {
        assert forall|o: RecordSpan| #[trigger] is_record(t@, o) implies !(o.start == start
            && o.key == key) by {
            if o.start == start && o.key == key {
                if o.id_end < id_end {
                    assert(t@[o.id_end] != '"');
                } else if id_end < o.id_end {
                    assert(t@[id_end as int] != '"');
                }
                assert(t@[o.tag_end] != '>');
            }
        }
        return None;
    }
    let mut j: usize = tag_end + 1;
    loop
        invariant
            w.valid(),
            n == t@.len(),
            tag_end < j <= n,
            free_of(t@, tag_end + 1, j as int, '\n'),
            forall|k: int| tag_end < k < j ==> !has_at(t@, k, close_word()),
        decreases n - j,
    {
        if starts_at(t, j, &w.close) {
            let s = Span { start, key, id_end, tag_end, name_end: j };
            return Some(s);
        }
        if j == n || t[j] == '\n' {
            assert forall|o: RecordSpan| #[trigger] is_record(t@, o) implies !(o.start == start
                && o.key == key) by {
                if o.start == start && o.key == key {
                    if o.id_end < id_end {
                        assert(t@[o.id_end] != '"');
                    } else if id_end < o.id_end {
                        assert(t@[id_end as int] != '"');
                    }
                    if o.tag_end < tag_end {
                        assert(t@[o.tag_end] != '>');
                    } else if tag_end < o.tag_end {
                        assert(t@[tag_end as int] != '>');
                    }
                    if o.name_end <= j {
                        assert(!has_at(t@, o.name_end, close_word()));
                    } else {
                        assert(t@[j as int] != '\n');
                    }
                }
            }
            return None;
        }
        j += 1;
    }
}

/// Reads the record that starts at `start`, if one does.
fn record_at(t: &Vec<char>, start: usize, w: &Words) -> (r: Option<Span>)
    requires
        w.valid(),
        has_at(t@, start as int, open_word()),
    ensures
        match r {
            Some(s) => s.start == start && best_at(t@, s@),
            None => forall|o: RecordSpan| #[trigger] is_record(t@, o) ==> o.start != start,
        },
{
    let n = t.len();
    let bound = seek(t, start + 4, '>');
    let mut key: usize = bound;
    assert forall|o: RecordSpan| #[trigger] is_record(t@, o) && o.start == start implies o.key
        <= bound by {
        if o.key > bound {
            if bound < n {
                assert(t@[bound as int] != '>');
            }
        }
    }
    loop
        invariant
            w.valid(),
            n == t@.len(),
            has_at(t@, start as int, open_word()),
            start + 4 <= key <= bound <= n,
            free_of(t@, start + 4, bound as int, '>'),
            forall|o: RecordSpan| #[trigger] is_record(t@, o) && o.start == start ==> o.key <= key,
        decreases key,
    {
        if starts_at(t, key, &w.key) {
            match record_with_key(t, start, key, w) {
                Some(s) => {
                    return Some(s);
                },
                None => {},
            }
        }
        if key == start + 4 {
            assert forall|o: RecordSpan| #[trigger] is_record(t@, o) implies o.start != start by {
                if o.start == start {
                    assert(o.key == key);
                }
            }
            return None;
        }
        key -= 1;
    }
}

/// Finds the first record to read at or after `from`.
fn next_record(t: &Vec<char>, from: usize, w: &Words) -> (r: Option<Span>)
    requires
        w.valid(),
        from <= t.len(),
    ensures
        match r {
            Some(s) => leads(t@, from as int, s@),
            None => forall|o: RecordSpan| #[trigger] is_record(t@, o) ==> o.start < from,
        },
{
    let n = t.len();
    let mut start: usize = from;
    while start < n
        invariant
            w.valid(),
            n == t@.len(),
            from <= start <= n,
            forall|o: RecordSpan| #[trigger] is_record(t@, o) && from <= o.start ==> start <= o.start,
        decreases n - start,
    {
        if starts_at(t, start, &w.open) {
            match record_at(t, start, w) {
                Some(s) => {
                    return Some(s);
                },
                None => {},
            }
        }
        start += 1;
    }
    None
}

/// Tells whether some entry of `v` has the identifier `id`.
fn knows_id(v: &Vec<AppEntry>, id: &String) -> (b: bool)
    ensures
        b == has_id(entry_views(v@), id@),
{
    let mut i: usize = 0;
    while i < v.len()
        invariant
            i <= v.len(),
            forall|k: int| 0 <= k < i ==> (#[trigger] entry_views(v@)[k]).id != id@,
        decreases v.len() - i,
    {
        if v[i].id == *id {
            assert(entry_views(v@)[i as int].id == id@);
            return true;
        }
        i += 1;
    }
    false
}

/// Reads the catalog out of the document `body`.
///
/// Every record of the document gives one entry, in the order of the
/// document; a record whose identifier an earlier record has is left out.
/// What is not part of a record is passed over, so a document without
/// records gives the empty catalog.
pub fn parse_catalog(body: &str) -> (v: Vec<AppEntry>)
    ensures
        entry_views(v@) == catalog(body@),
        distinct_ids(entry_views(v@)),
        forall|i: int| 0 <= i < v@.len() ==> (#[trigger] v@[i]).id@.len() > 0,
        forall|i: int|
            0 <= i < v@.len() ==> exists|r: RecordSpan|
                is_record(body@, r) && (#[trigger] v@[i])@ == entry_of(body@, r),
{
    let t = chars_of(body);
    let w = Words::new();
    let mut v: Vec<AppEntry> = Vec::new();
    let ghost mut seen: Seq<RecordSpan> = Seq::empty();
    let mut pos: usize = 0;
    assert(records_from(t@, 0) =~= seen + records_from(t@, 0));
    assert(entry_views(v@) =~= first_of_each(entries_of(t@, seen)));
    loop
        invariant
            t@ == body@,
            w.valid(),
            pos <= t@.len(),
            records_from(t@, 0) == seen + records_from(t@, pos as int),
            entry_views(v@) == first_of_each(entries_of(t@, seen)),
            distinct_ids(entry_views(v@)),
            forall|i: int| 0 <= i < v@.len() ==> (#[trigger] v@[i]).id@.len() > 0,
            forall|i: int|
                0 <= i < v@.len() ==> exists|r: RecordSpan|
                    is_record(t@, r) && (#[trigger] v@[i])@ == entry_of(t@, r),
        decreases t@.len() - pos,
    {
        match next_record(&t, pos, &w) {
            None => {
                proof {
                    lemma_records_none(t@, pos as int);
                    assert(seen + Seq::<RecordSpan>::empty() =~= seen);
                }
                return v;
            },
            Some(s) => {
                let ghost r = s@;
                let ghost before = v@;
                assert(is_record(t@, r));
                let ghost e = entry_of(t@, r);
                let id = String::from_str(body.substring_char(s.key + 4, s.id_end));
                let known = knows_id(&v, &id);
                if !known {
                    let name = decode_entities(body.substring_char(s.tag_end + 1, s.name_end));
                    let entry = AppEntry { id, name };
                    assert(entry@ == e);
                    v.push(entry);
                }
                proof {
                    lemma_records_step(t@, pos as int, r);
                    let rest = records_from(t@, r.name_end + 6);
                    assert(seen + (seq![r] + rest) =~= seen.push(r) + rest);
                    let old_entries = entries_of(t@, seen);
                    let new_entries = entries_of(t@, seen.push(r));
                    assert(new_entries.drop_last() =~= old_entries);
                    assert(new_entries.last() == e);
                    if known {
                        assert(v@ == before);
                    } else {
                        assert(entry_views(v@) =~= entry_views(before).push(e));
                        assert forall|i: int, j: int| 0 <= i < j < v@.len() implies (
                        #[trigger] entry_views(v@)[i]).id != (#[trigger] entry_views(v@)[j]).id by {
                            if j < before.len() {
                                assert(entry_views(before)[i].id != entry_views(before)[j].id);
                            } else {
                                assert(entry_views(before)[i].id != e.id);
                            }
                        }
                        assert forall|i: int| 0 <= i < v@.len() implies exists|o: RecordSpan|
                            is_record(t@, o) && (#[trigger] v@[i])@ == entry_of(t@, o) by {
                            if i < before.len() {
                                assert(v@[i] == before[i]);
                            } else {
                                assert(is_record(t@, r) && v@[i]@ == entry_of(t@, r));
                            }
                        }
                    }
                    seen = seen.push(r);
                }
                assert(s.name_end + 6 <= t.len());
                pos = s.name_end + 6;
            },
        }
    }
}

/// The name of the entry of `s` that has the identifier `id`.
pub open spec fn name_for(s: Seq<EntryView>, id: Seq<char>) -> Option<Seq<char>>
    decreases s.len(),
{
    if s.len() == 0 {
        None
    } else if s[0].id == id {
        Some(s[0].name)
    } else {
        name_for(s.drop_first(), id)
    }
}

/// Looks up the name of the application with the identifier `id`.
pub fn name_of(entries: &Vec<AppEntry>, id: &str) -> (r: Option<String>)
    ensures
        match r {
            Some(name) => name_for(entry_views(entries@), id@) == Some(name@),
            None => name_for(entry_views(entries@), id@) is None,
        },
{
    let wanted = String::from_str(id);
    let ghost all = entry_views(entries@);
    let mut i: usize = 0;
    assert(all.skip(0) =~= all);
    while i < entries.len()
        invariant
            i <= entries.len(),
            wanted@ == id@,
            all == entry_views(entries@),
            name_for(all, id@) == name_for(all.skip(i as int), id@),
        decreases entries.len() - i,
    {
        assert(all.skip(i as int)[0] == all[i as int]);
        if entries[i].id == wanted {
            return Some(entries[i].name.clone());
        }
        assert(all.skip(i as int).drop_first() =~= all.skip(i + 1));
        i += 1;
    }
    None
}

/// What came back from the catalog query.
pub enum Fetched {
    /// The body of the response, as text.
    Text(String),
    /// A response whose body is not text.
    NotText,
    /// No response: the request failed.
    Failed,
}

/// The catalog that a catalog query has brought: the one that the body
/// holds, and the empty one where the query brought no text.
pub open spec fn fetched_catalog(f: Fetched) -> Seq<EntryView> {
    match f {
        Fetched::Text(body) => catalog(body@),
        _ => Seq::empty(),
    }
}

/// Turns the outcome of the catalog query into the list of applications.
/// A failed query is no error: it gives the empty list.
pub fn get_apps(fetched: &Fetched) -> (v: Vec<AppEntry>)
    ensures
        entry_views(v@) == fetched_catalog(*fetched),
        !(fetched is Text) ==> v@.len() == 0,
        distinct_ids(entry_views(v@)),
        forall|i: int| 0 <= i < v@.len() ==> (#[trigger] v@[i]).id@.len() > 0,
{
    match fetched {
        Fetched::Text(body) => parse_catalog(body.as_str()),
        _ => {
            let v: Vec<AppEntry> = Vec::new();
            assert(entry_views(v@) =~= Seq::<EntryView>::empty());
            v
        },
    }
}

/// A document in which no record stands has the empty catalog.
pub proof fn lemma_no_record_empty_catalog(t: Seq<char>)
    requires
        forall|r: RecordSpan| !is_record(t, r),
    ensures
        catalog(t) == Seq::<EntryView>::empty(),
{
    lemma_records_none(t, 0);
    assert(entries_of(t, Seq::<RecordSpan>::empty()) =~= Seq::<EntryView>::empty());
}

} // verus!
