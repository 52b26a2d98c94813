mod round_trip;

use vstd::prelude::*;

use crate::date_time::{format_text, parse_text, DateTime};
use crate::task::{status_of_lowered, status_text, Task, TaskRecord, TaskStatus};
use crate::text::{
    chars_of, decimal, has_char, lowered, parse_unsigned, parse_unsigned_chars, same_chars,
    split_chars, split_first, split_first_chars, split_on, string_of, trim, trim_chars,
};

pub use crate::codec::round_trip::lemma_codec_round_trip;

verus! {

/// The records of stored tasks, keyed by ID, in stored order.
pub open spec fn records(v: Seq<(u32, Task)>) -> Seq<(u32, TaskRecord)> {
    v.map_values(|e: (u32, Task)| (e.0, e.1@))
}

/// No ID occurs twice.
pub open spec fn unique_ids(s: Seq<(u32, TaskRecord)>) -> bool {
    forall|i: int, j: int| 0 <= i < j < s.len() ==> s[i].0 != s[j].0
}

/// The records as a map from ID to record; a later record wins over an earlier one.
pub open spec fn task_map(s: Seq<(u32, TaskRecord)>) -> Map<u32, TaskRecord>
    decreases s.len(),
{
    if s.len() == 0 {
        Map::<u32, TaskRecord>::empty()
    } else {
        task_map(s.drop_last()).insert(s.last().0, s.last().1)
    }
}

pub open spec fn has_id(s: Seq<(u32, TaskRecord)>, id: u32) -> bool {
    exists|i: int| 0 <= i < s.len() && s[i].0 == id
}

/// With unique IDs, the map holds exactly the records of the sequence.
pub proof fn lemma_task_map(s: Seq<(u32, TaskRecord)>)
    requires
        unique_ids(s),
    ensures
        forall|k: u32| #[trigger] task_map(s).contains_key(k) <==> has_id(s, k),
        forall|i: int|
            0 <= i < s.len() ==> #[trigger] task_map(s)[s[i].0] == s[i].1 && task_map(
                s,
            ).contains_key(s[i].0),
    decreases s.len(),
{
    if s.len() > 0 {
        let t = s.drop_last();
        assert(unique_ids(t));
        lemma_task_map(t);
        assert forall|k: u32| #[trigger] task_map(s).contains_key(k) <==> has_id(s, k) by {
            assert(task_map(s).contains_key(k) <==> (task_map(t).contains_key(k) || k == s.last().0));
            if k == s.last().0 {
                assert(s[s.len() - 1].0 == k);
            }
            if has_id(s, k) {
                let i = choose|i: int| 0 <= i < s.len() && s[i].0 == k;
                if i < s.len() - 1 {
                    assert(t[i].0 == k);
                }
            }
            if has_id(t, k) {
                let i = choose|i: int| 0 <= i < t.len() && t[i].0 == k;
                assert(s[i].0 == k);
            }
        }
        assert forall|i: int| 0 <= i < s.len() implies #[trigger] task_map(s)[s[i].0] == s[i].1
            && task_map(s).contains_key(s[i].0) by {
            if i < s.len() - 1 {
                assert(t[i] == s[i]);
                assert(s[i].0 != s[s.len() - 1].0);
                assert(task_map(t)[t[i].0] == t[i].1);
                assert(task_map(t).contains_key(t[i].0));
            } else {
                assert(s[i] == s.last());
            }
        }
    }
}

/// Replacing the record at a position changes the map at that record's ID alone.
pub proof fn lemma_task_map_update(s: Seq<(u32, TaskRecord)>, i: int, rec: TaskRecord)
    requires
        unique_ids(s),
        0 <= i < s.len(),
    ensures
        unique_ids(s.update(i, (s[i].0, rec))),
        task_map(s.update(i, (s[i].0, rec))) == task_map(s).insert(s[i].0, rec),
{
    let s2 = s.update(i, (s[i].0, rec));
    assert(unique_ids(s2));
    lemma_task_map(s);
    lemma_task_map(s2);
    let m = task_map(s).insert(s[i].0, rec);
    assert forall|k: u32| #[trigger] task_map(s2).contains_key(k) <==> m.contains_key(k) by {
        if has_id(s2, k) {
            let j = choose|j: int| 0 <= j < s2.len() && s2[j].0 == k;
            assert(s[j].0 == k);
        }
        if has_id(s, k) {
            let j = choose|j: int| 0 <= j < s.len() && s[j].0 == k;
            assert(s2[j].0 == k);
        }
    }
    assert forall|k: u32| #[trigger] task_map(s2).contains_key(k) implies task_map(s2)[k] == m[k] by {
        let j = choose|j: int| 0 <= j < s2.len() && s2[j].0 == k;
        assert(task_map(s2)[s2[j].0] == s2[j].1);
        if j != i {
            assert(task_map(s)[s[j].0] == s[j].1);
        }
    }
    assert(task_map(s2) =~= m);
}

/// Adding a record with a new ID adds it to the map.
pub proof fn lemma_task_map_push(s: Seq<(u32, TaskRecord)>, id: u32, rec: TaskRecord)
    requires
        unique_ids(s),
        !has_id(s, id),
    ensures
        unique_ids(s.push((id, rec))),
        task_map(s.push((id, rec))) == task_map(s).insert(id, rec),
{
    let s2 = s.push((id, rec));
    assert forall|i: int, j: int| 0 <= i < j < s2.len() implies s2[i].0 != s2[j].0 by {
        if j == s.len() {
            assert(s2[i] == s[i]);
        }
    }
    assert(s2.drop_last() =~= s);
}

/// Taking out the record at a position takes its ID out of the map.
pub proof fn lemma_task_map_remove(s: Seq<(u32, TaskRecord)>, i: int)
    requires
        unique_ids(s),
        0 <= i < s.len(),
    ensures
        unique_ids(s.remove(i)),
        task_map(s.remove(i)) == task_map(s).remove(s[i].0),
{
    let s2 = s.remove(i);
    assert forall|a: int, b: int| 0 <= a < b < s2.len() implies s2[a].0 != s2[b].0 by {
        let a1 = if a < i { a } else { a + 1 };
        let b1 = if b < i { b } else { b + 1 };
        assert(s2[a] == s[a1] && s2[b] == s[b1]);
    }
    lemma_task_map(s);
    lemma_task_map(s2);
    let m = task_map(s).remove(s[i].0);
    assert forall|k: u32| #[trigger] task_map(s2).contains_key(k) <==> m.contains_key(k) by {
        if has_id(s2, k) {
            let j = choose|j: int| 0 <= j < s2.len() && s2[j].0 == k;
            let j1 = if j < i { j } else { j + 1 };
            assert(s[j1].0 == k);
            assert(k != s[i].0);
        }
        if has_id(s, k) && k != s[i].0 {
            let j = choose|j: int| 0 <= j < s.len() && s[j].0 == k;
            let j2 = if j < i { j } else { j - 1 };
            assert(s2[j2].0 == k);
        }
    }
    assert forall|k: u32| #[trigger] task_map(s2).contains_key(k) implies task_map(s2)[k] == m[k] by {
        let j = choose|j: int| 0 <= j < s2.len() && s2[j].0 == k;
        let j1 = if j < i { j } else { j + 1 };
        assert(s2[j] == s[j1]);
        assert(task_map(s2)[s2[j].0] == s2[j].1);
        assert(task_map(s)[s[j1].0] == s[j1].1);
    }
    assert(task_map(s2) =~= m);
}

/// Position of the record with ID `id`, or -1.
pub open spec fn id_index(s: Seq<(u32, TaskRecord)>, id: u32) -> int
    decreases s.len(),
{
    if s.len() == 0 {
        -1
    } else if s.last().0 == id {
        s.len() - 1
    } else {
        id_index(s.drop_last(), id)
    }
}

/// `s` with the record for `id` replaced by `rec`, or with `(id, rec)` added at the end.
pub open spec fn upsert(s: Seq<(u32, TaskRecord)>, id: u32, rec: TaskRecord) -> Seq<(u32, TaskRecord)> {
    let i = id_index(s, id);
    if i >= 0 {
        s.update(i, (id, rec))
    } else {
        s.push((id, rec))
    }
}

pub proof fn lemma_id_index(s: Seq<(u32, TaskRecord)>, id: u32)
    ensures
        -1 <= id_index(s, id) < s.len(),
        id_index(s, id) >= 0 ==> s[id_index(s, id)].0 == id,
        id_index(s, id) < 0 ==> forall|k: int| 0 <= k < s.len() ==> s[k].0 != id,
    decreases s.len(),
{
    if s.len() > 0 && s.last().0 != id {
        lemma_id_index(s.drop_last(), id);
        assert forall|k: int| 0 <= k < s.len() - 1 implies s[k] == s.drop_last()[k] by {}
    }
}

pub open spec fn quoted(s: Seq<char>) -> Seq<char> {
    seq!['"'] + s + seq!['"']
}

pub open spec fn spaces(n: nat) -> Seq<char> {
    Seq::new(n, |i: int| ' ')
}

pub open spec fn id_key() -> Seq<char> {
    seq!['i', 'd']
}

pub open spec fn description_key() -> Seq<char> {
    seq!['d', 'e', 's', 'c', 'r', 'i', 'p', 't', 'i', 'o', 'n']
}

pub open spec fn status_key() -> Seq<char> {
    seq!['s', 't', 'a', 't', 'u', 's']
}

pub open spec fn created_key() -> Seq<char> {
    seq!['c', 'r', 'e', 'a', 't', 'e', 'd', 'A', 't']
}

pub open spec fn updated_key() -> Seq<char> {
    seq!['u', 'p', 'd', 'a', 't', 'e', 'd', 'A', 't']
}

/// `        "key": "value",` (the comma left out after the last field of an object).
pub open spec fn field_line(key: Seq<char>, value: Seq<char>, comma: bool) -> Seq<char> {
    spaces(8) + quoted(key) + seq![':', ' '] + quoted(value) + if comma {
        seq![',']
    } else {
        Seq::<char>::empty()
    }
}

/// The lines of one object; `last` leaves out the comma after its closing brace.
pub open spec fn object_lines(id: u32, r: TaskRecord, last: bool) -> Seq<Seq<char>> {
    seq![
        spaces(4) + seq!['{'],
        field_line(id_key(), decimal(id as nat), true),
        field_line(description_key(), r.description, true),
        field_line(status_key(), status_text(r.status), true),
        field_line(created_key(), format_text(r.created_at), true),
        field_line(updated_key(), format_text(r.updated_at), false),
        spaces(4) + if last {
            seq!['}']
        } else {
            seq!['}', ',']
        },
    ]
}

/// The lines of the first `k` objects of `s`.
pub open spec fn objects_lines(s: Seq<(u32, TaskRecord)>, k: int) -> Seq<Seq<char>>
    decreases k,
{
    if k <= 0 {
        Seq::<Seq<char>>::empty()
    } else {
        objects_lines(s, k - 1) + object_lines(s[k - 1].0, s[k - 1].1, k == s.len())
    }
}

/// The lines of the whole array: `[`, the objects, `]`.
pub open spec fn encoded_lines(s: Seq<(u32, TaskRecord)>) -> Seq<Seq<char>> {
    seq![seq!['[']] + objects_lines(s, s.len() as int) + seq![seq![']']]
}

/// Lines joined with a newline between each two.
pub open spec fn join_lines(l: Seq<Seq<char>>) -> Seq<char>
    decreases l.len(),
{
    if l.len() == 0 {
        Seq::<char>::empty()
    } else if l.len() == 1 {
        l[0]
    } else {
        join_lines(l.drop_last()) + seq!['\n'] + l.last()
    }
}

/// The text that stores the records `s`.
pub open spec fn encode_text(s: Seq<(u32, TaskRecord)>) -> Seq<char> {
    join_lines(encoded_lines(s))
}

/// What the decoder holds between lines.
pub struct DecodeState {
    pub entries: Seq<(u32, TaskRecord)>,
    pub open: bool,
    pub id: u32,
    pub record: TaskRecord,
}

/// The record that an object starts from before any field is read.
pub open spec fn blank_record(now: DateTime) -> TaskRecord {
    TaskRecord {
        description: Seq::<char>::empty(),
        status: TaskStatus::ToDo,
        created_at: now,
        updated_at: now,
    }
}

pub open spec fn initial_state(now: DateTime) -> DecodeState {
    DecodeState {
        entries: Seq::<(u32, TaskRecord)>::empty(),
        open: false,
        id: 0,
        record: blank_record(now),
    }
}

/// A field's value: without surrounding whitespace and trailing comma, then without its quotes;
/// empty where it is not quoted.
pub open spec fn value_of(v: Seq<char>) -> Seq<char> {
    let t = trim(v);
    let u = if t.len() > 0 && t.last() == ',' {
        t.drop_last()
    } else {
        t
    };
    if u.len() >= 2 && u[0] == '"' && u.last() == '"' {
        u.subrange(1, u.len() - 1)
    } else {
        Seq::<char>::empty()
    }
}

/// Reads the field on a trimmed line of an open object; unknown keys change nothing.
pub open spec fn read_field(st: DecodeState, t: Seq<char>) -> DecodeState {
    match split_first(t, ':') {
        None => st,
        Some((k, v)) => {
            let val = value_of(v);
            if k == quoted(id_key()) {
                DecodeState {
                    id: match parse_unsigned(val, 0xffff_ffff) {
                        Some(n) => n as u32,
                        None => 0,
                    },
                    ..st
                }
            } else if k == quoted(description_key()) {
                DecodeState { record: TaskRecord { description: val, ..st.record }, ..st }
            } else if k == quoted(status_key()) {
                DecodeState {
                    record: TaskRecord { status: status_of_lowered(lowered(val)), ..st.record },
                    ..st
                }
            } else if k == quoted(created_key()) {
                DecodeState { record: TaskRecord { created_at: parse_text(val), ..st.record }, ..st }
            } else if k == quoted(updated_key()) {
                DecodeState { record: TaskRecord { updated_at: parse_text(val), ..st.record }, ..st }
            } else {
                st
            }
        },
    }
}

/// One line: `{` opens an object; `}` stores the object read so far under its ID and starts
/// afresh; inside an open object the line sets a field.
#[verifier::opaque]
pub open spec fn decode_step(st: DecodeState, line: Seq<char>, now: DateTime) -> DecodeState {
    let t = trim(line);
    let st1 = if has_char(t, '{') {
        DecodeState { open: true, ..st }
    } else {
        st
    };
    let st2 = if has_char(t, '}') {
        DecodeState {
            entries: upsert(st1.entries, st1.id, st1.record),
            open: false,
            id: 0,
            record: blank_record(now),
        }
    } else {
        st1
    };
    if st2.open {
        read_field(st2, t)
    } else {
        st2
    }
}

pub open spec fn decode_from(st: DecodeState, lines: Seq<Seq<char>>, now: DateTime) -> DecodeState
    decreases lines.len(),
{
    if lines.len() == 0 {
        st
    } else {
        decode_step(decode_from(st, lines.drop_last(), now), lines.last(), now)
    }
}

/// The records that the text `s` holds, read line by line; `now` stamps a record whose time
/// fields are missing.
pub open spec fn decode_text(s: Seq<char>, now: DateTime) -> Seq<(u32, TaskRecord)> {
    decode_from(initial_state(now), split_on(s, '\n'), now).entries
}

fn spaces_chars(n: usize) -> (r: Vec<char>)
    ensures
        r@ == spaces(n as nat),
{
    let mut r: Vec<char> = Vec::new();
    while r.len() < n
        invariant
            r.len() <= n,
            forall|i: int| 0 <= i < r.len() ==> r@[i] == ' ',
        decreases n - r.len(),
    {
        r.push(' ');
    }
    assert(r@ =~= spaces(n as nat));
    r
}

fn id_key_chars() -> (r: Vec<char>)
    ensures
        r@ == id_key(),
{
    let r = vec!['i', 'd'];
    assert(r@ =~= id_key());
    r
}

fn description_key_chars() -> (r: Vec<char>)
    ensures
        r@ == description_key(),
{
    let r = vec!['d', 'e', 's', 'c', 'r', 'i', 'p', 't', 'i', 'o', 'n'];
    assert(r@ =~= description_key());
    r
}

fn status_key_chars() -> (r: Vec<char>)
    ensures
        r@ == status_key(),
{
    let r = vec!['s', 't', 'a', 't', 'u', 's'];
    assert(r@ =~= status_key());
    r
}

fn created_key_chars() -> (r: Vec<char>)
    ensures
        r@ == created_key(),
{
    let r = vec!['c', 'r', 'e', 'a', 't', 'e', 'd', 'A', 't'];
    assert(r@ =~= created_key());
    r
}

fn updated_key_chars() -> (r: Vec<char>)
    ensures
        r@ == updated_key(),
{
    let r = vec!['u', 'p', 'd', 'a', 't', 'e', 'd', 'A', 't'];
    assert(r@ =~= updated_key());
    r
}

fn quoted_chars(s: &Vec<char>) -> (r: Vec<char>)
    ensures
        r@ == quoted(s@),
{
    let mut r: Vec<char> = vec!['"'];
    let mut c = s.clone();
    r.append(&mut c);
    r.push('"');
    assert(r@ =~= quoted(s@));
    r
}

fn field_line_chars(key: &Vec<char>, value: &Vec<char>, comma: bool) -> (r: Vec<char>)
    ensures
        r@ == field_line(key@, value@, comma),
{
    let mut r = spaces_chars(8);
    r.append(&mut quoted_chars(key));
    r.push(':');
    r.push(' ');
    r.append(&mut quoted_chars(value));
    if comma {
        r.push(',');
    }
    assert(r@ =~= field_line(key@, value@, comma));
    r
}

fn object_lines_chars(id: u32, task: &Task, last: bool) -> (r: Vec<Vec<char>>)
    ensures
        r@.len() == 7,
        forall|i: int| 0 <= i < 7 ==> #[trigger] r@[i]@ == object_lines(id, task@, last)[i],
{
    let mut open = spaces_chars(4);
    open.push('{');
    let mut close = spaces_chars(4);
    close.push('}');
    if !last {
        close.push(',');
    }
    let description = chars_of(task.description());
    let status = chars_of(task.status().to_string().as_str());
    let created = chars_of(task.created_at().to_string().as_str());
    let updated = chars_of(task.updated_at().to_string().as_str());
    let r = vec![
        open,
        field_line_chars(&id_key_chars(), &decimal_chars_u32(id), true),
        field_line_chars(&description_key_chars(), &description, true),
        field_line_chars(&status_key_chars(), &status, true),
        field_line_chars(&created_key_chars(), &created, true),
        field_line_chars(&updated_key_chars(), &updated, false),
        close,
    ];
    proof {
        let o = object_lines(id, task@, last);
        assert(r@[0]@ =~= o[0]);
        assert(r@[6]@ =~= o[6]);
    }
    r
}

fn decimal_chars_u32(n: u32) -> (r: Vec<char>)
    ensures
        r@ == decimal(n as nat),
{
    crate::text::decimal_chars(n as u64)
}

/// The text that stores `tasks`: a JSON array with one object of five string fields per task.
pub fn encode(tasks: &Vec<(u32, Task)>) -> (r: String)
    ensures
        r@ == encode_text(records(tasks@)),
{
    let ghost s = records(tasks@);
    let mut out: Vec<char> = vec!['['];
    let ghost mut lines: Seq<Seq<char>> = seq![seq!['[']];
    assert(out@ =~= join_lines(lines));
    assert(objects_lines(s, 0) =~= Seq::<Seq<char>>::empty());
    assert(lines =~= seq![seq!['[']] + objects_lines(s, 0));
    let n = tasks.len();
    let mut k: usize = 0;
    while k < n
        invariant
            k <= n == tasks.len(),
            s == records(tasks@),
            lines.len() >= 1,
            out@ == join_lines(lines),
            lines == seq![seq!['[']] + objects_lines(s, k as int),
        decreases n - k,
    {
        let obj = object_lines_chars(tasks[k].0, &tasks[k].1, k + 1 == n);
        let ghost ov = object_lines(s[k as int].0, s[k as int].1, k + 1 == n);
        let ghost base = lines;
        let mut j: usize = 0;
        while j < 7
            invariant
                j <= 7,
                ov.len() == 7,
                obj@.len() == 7,
                forall|i: int| 0 <= i < 7 ==> #[trigger] obj@[i]@ == ov[i],
                base.len() >= 1,
                lines == base + ov.take(j as int),
                out@ == join_lines(lines),
            decreases 7 - j,
        {
            out.push('\n');
            let mut line = obj[j].clone();
            out.append(&mut line);
            proof {
                let next = lines.push(ov[j as int]);
                assert(next.drop_last() =~= lines);
                assert(ov.take(j + 1) =~= ov.take(j as int).push(ov[j as int]));
                lines = next;
            }
            j += 1;
        }
        proof {
            assert(ov.take(7) =~= ov);
            assert(objects_lines(s, k + 1) == objects_lines(s, k as int) + ov);
            assert(lines =~= seq![seq!['[']] + objects_lines(s, k + 1));
        }
        k += 1;
    }
    out.push('\n');
    out.push(']');
    proof {
        let next = lines.push(seq![']']);
        assert(next.drop_last() =~= lines);
        assert(out@ =~= join_lines(next));
        assert(next =~= encoded_lines(s));
    }
    string_of(&out)
}

fn has_char_chars(s: &Vec<char>, c: char) -> (r: bool)
    ensures
        r == has_char(s@, c),
{
    let mut i: usize = 0;
    while i < s.len()
        invariant
            i <= s.len(),
            forall|k: int| 0 <= k < i ==> s@[k] != c,
        decreases s.len() - i,
    {
        if s[i] == c {
            return true;
        }
        i += 1;
    }
    false
}

fn value_chars(v: &Vec<char>) -> (r: Vec<char>)
    ensures
        r@ == value_of(v@),
{
    let mut t = trim_chars(v);
    if t.len() > 0 && t[t.len() - 1] == ',' {
        t.pop();
    }
    let n = t.len();
    let mut r: Vec<char> = Vec::new();
    if n >= 2 && t[0] == '"' && t[n - 1] == '"' {
        let mut k: usize = 1;
        while k < n - 1
            invariant
                1 <= k <= n - 1,
                n == t.len(),
                r@ == t@.subrange(1, k as int),
            decreases n - 1 - k,
        {
            r.push(t[k]);
            k += 1;
        }
    }
    proof {
        let tt = trim(v@);
        let u = if tt.len() > 0 && tt.last() == ',' {
            tt.drop_last()
        } else {
            tt
        };
        assert(t@ =~= u);
        if !(n >= 2 && t@[0] == '"' && t@[n - 1] == '"') {
            assert(r@ =~= Seq::<char>::empty());
        }
    }
    r
}

/// The object being read: its ID and fields so far.
struct Pending {
    id: u32,
    description: Vec<char>,
    status: TaskStatus,
    created_at: DateTime,
    updated_at: DateTime,
}

impl Pending {
    spec fn record(&self) -> TaskRecord {
        TaskRecord {
            description: self.description@,
            status: self.status,
            created_at: self.created_at,
            updated_at: self.updated_at,
        }
    }

    spec fn state(&self, entries: Seq<(u32, TaskRecord)>, open: bool) -> DecodeState {
        DecodeState { entries, open, id: self.id, record: self.record() }
    }

    fn blank(now: DateTime) -> (r: Pending)
        ensures
            r.id == 0,
            r.record() == blank_record(now),
    {
        let r = Pending {
            id: 0,
            description: Vec::new(),
            status: TaskStatus::ToDo,
            created_at: now,
            updated_at: now,
        };
        assert(r.record().description =~= Seq::<char>::empty());
        r
    }

    /// Sets the field that the trimmed line `t` names.
    fn read_field(&mut self, t: &Vec<char>)
        ensures
            forall|entries: Seq<(u32, TaskRecord)>, open: bool|
                #[trigger] final(self).state(entries, open) == read_field(
                    old(self).state(entries, open),
                    t@,
                ),
    {
        match split_first_chars(t, ':') {
            None => {},
            Some((k, v)) => {
                let val = value_chars(&v);
                if same_chars(&k, &quoted_chars(&id_key_chars())) {
                    self.id = match parse_unsigned_chars(&val, 0xffff_ffff) {
                        Some(n) => n as u32,
                        None => 0,
                    };
                } else if same_chars(&k, &quoted_chars(&description_key_chars())) {
                    self.description = val;
                } else if same_chars(&k, &quoted_chars(&status_key_chars())) {
                    let text = string_of(&val);
                    self.status = TaskStatus::from_text(text.as_str());
                } else if same_chars(&k, &quoted_chars(&created_key_chars())) {
                    let text = string_of(&val);
                    self.created_at = DateTime::from_text(text.as_str());
                } else if same_chars(&k, &quoted_chars(&updated_key_chars())) {
                    let text = string_of(&val);
                    self.updated_at = DateTime::from_text(text.as_str());
                }
            },
        }
        assert forall|entries: Seq<(u32, TaskRecord)>, open: bool|
            #[trigger] self.state(entries, open) == read_field(
                old(self).state(entries, open),
                t@,
            ) by {
            let a = self.state(entries, open);
            let b = read_field(old(self).state(entries, open), t@);
            assert(a.record =~= b.record);
        }
    }
}

proof fn lemma_upsert_unique(s: Seq<(u32, TaskRecord)>, id: u32, rec: TaskRecord)
    requires
        unique_ids(s),
    ensures
        unique_ids(upsert(s, id, rec)),
{
    lemma_id_index(s, id);
}

/// Stores `task` under `id`: in place of the task with that ID, or at the end.
fn upsert_task(entries: &mut Vec<(u32, Task)>, id: u32, task: Task)
    requires
        unique_ids(records(old(entries)@)),
    ensures
        records(final(entries)@) == upsert(records(old(entries)@), id, task@),
        unique_ids(records(final(entries)@)),
{
    let ghost s = records(entries@);
    proof {
        lemma_id_index(s, id);
        lemma_upsert_unique(s, id, task@);
    }
    let mut i: usize = entries.len();
    assert(s.take(i as int) =~= s);
    while i > 0 && entries[i - 1].0 != id
        invariant
            i <= entries.len(),
            s == records(entries@),
            id_index(s, id) == id_index(s.take(i as int), id),
        decreases i,
    {
        assert(s.take(i as int).drop_last() =~= s.take(i - 1));
        i -= 1;
    }
    if i == 0 {
        assert(s.take(0) =~= Seq::<(u32, TaskRecord)>::empty());
        entries.push((id, task));
        assert(records(entries@) =~= s.push((id, task@)));
    } else {
        assert(s.take(i as int).last() == s[i - 1]);
        entries.set(i - 1, (id, task));
        assert(records(entries@) =~= s.update(i - 1, (id, task@)));
    }
}

/// The tasks that the text `text` stores, read line by line as the encoder writes them; `now`
/// stamps a task whose time fields are missing.
pub fn decode(text: &str, now: DateTime) -> (r: Vec<(u32, Task)>)
    ensures
        records(r@) == decode_text(text@, now),
        unique_ids(records(r@)),
{
    let chars = chars_of(text);
    let lines = split_chars(&chars, '\n');
    let ghost ls = split_on(text@, '\n');
    let mut entries: Vec<(u32, Task)> = Vec::new();
    let mut open = false;
    let mut p = Pending::blank(now);
    let mut i: usize = 0;
    assert(records(entries@) =~= Seq::<(u32, TaskRecord)>::empty());
    assert(ls.take(0) =~= Seq::<Seq<char>>::empty());
    while i < lines.len()
        invariant
            i <= lines.len(),
            crate::text::pieces(lines@) == ls,
            unique_ids(records(entries@)),
            p.state(records(entries@), open) == decode_from(
                initial_state(now),
                ls.take(i as int),
                now,
            ),
        decreases lines.len() - i,
    {
        let ghost before = p.state(records(entries@), open);
        proof {
            reveal(decode_step);
        }
        assert(ls.take(i + 1).drop_last() =~= ls.take(i as int));
        let t = trim_chars(&lines[i]);
        if has_char_chars(&t, '{') {
            open = true;
        }
        if has_char_chars(&t, '}') {
            let description = string_of(&p.description);
            let task = Task::load(description.as_str(), &p.status, &p.created_at, &p.updated_at);
            upsert_task(&mut entries, p.id, task);
            open = false;
            p = Pending::blank(now);
        }
        if open {
            p.read_field(&t);
        }
        assert(p.state(records(entries@), open) =~= decode_step(before, ls[i as int], now));
        i += 1;
    }
    assert(ls.take(i as int) =~= ls);
    entries
}

} // verus!
