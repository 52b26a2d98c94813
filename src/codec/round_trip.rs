use vstd::prelude::*;

use crate::codec::{
    blank_record, created_key, decode_from, decode_step, decode_text, description_key,
    encode_text, encoded_lines, field_line, has_id, id_index, id_key, initial_state,
    lemma_id_index, object_lines, objects_lines, quoted, spaces, status_key,
    task_map, unique_ids, updated_key, value_of, DecodeState, join_lines,
};
use crate::date_time::{format_text, lemma_format_parse, lemma_format_plain, DateTime};
use crate::task::{lemma_status_text, status_text, TaskRecord, TaskStatus};
use crate::text::{
    decimal, first_index, has_char, is_space, lemma_decimal, lemma_digits_plain,
    lemma_first_index, lemma_no_char_concat, lemma_parse_padded, lemma_split_extend, split_first,
    split_on, trim, trim_start,
};

verus! {

/// Lines that hold no line break split back out of the text that joins them.
proof fn lemma_split_join(l: Seq<Seq<char>>)
    requires
        l.len() >= 1,
        forall|i: int| 0 <= i < l.len() ==> !has_char(#[trigger] l[i], '\n'),
    ensures
        split_on(join_lines(l), '\n') == l,
    decreases l.len(),
{
    let e = Seq::<char>::empty();
    if l.len() == 1 {
        lemma_split_extend(e, l[0], '\n');
        assert(e + l[0] =~= l[0]);
        assert(l =~= seq![l[0]]);
    } else {
        let l0 = l.drop_last();
        assert forall|i: int| 0 <= i < l0.len() implies !has_char(#[trigger] l0[i], '\n') by {
            assert(l0[i] == l[i]);
        }
        lemma_split_join(l0);
        let x = join_lines(l0) + seq!['\n'];
        assert(x.drop_last() =~= join_lines(l0));
        assert(split_on(x, '\n') == l0.push(e));
        assert(!has_char(l.last(), '\n')) by {
            assert(l.last() == l[l.len() - 1]);
        }
        lemma_split_extend(x, l.last(), '\n');
        assert(e + l.last() =~= l.last());
        assert(l0.push(e).update(l0.len() as int, l.last()) =~= l);
    }
}

/// Decoding lines one after another: the second part starts from where the first left off.
proof fn lemma_decode_append(st: DecodeState, a: Seq<Seq<char>>, b: Seq<Seq<char>>, now: DateTime)
    ensures
        decode_from(st, a + b, now) == decode_from(decode_from(st, a, now), b, now),
    decreases b.len(),
{
    if b.len() == 0 {
        assert(a + b =~= a);
    } else {
        lemma_decode_append(st, a, b.drop_last(), now);
        assert((a + b).drop_last() =~= a + b.drop_last());
    }
}

/// Indented text whose ends are not whitespace trims to itself.
proof fn lemma_trim_indented(k: nat, x: Seq<char>)
    requires
        x.len() > 0,
        !is_space(x[0]),
        !is_space(x.last()),
    ensures
        trim(spaces(k) + x) == x,
    decreases k,
{
    if k == 0 {
        assert(spaces(0) + x =~= x);
    } else {
        let y = spaces(k) + x;
        assert(y[0] == ' ');
        assert(y.drop_first() =~= spaces((k - 1) as nat) + x);
        lemma_trim_indented((k - 1) as nat, x);
        assert(trim_start(y) == trim_start(spaces((k - 1) as nat) + x));
    }
    assert(trim_start(x) == x);
}

/// Where `c` first occurs at `k`, the first index of `c` is `k`.
proof fn lemma_first_index_at(s: Seq<char>, c: char, k: int)
    requires
        0 <= k < s.len(),
        s[k] == c,
        forall|j: int| 0 <= j < k ==> s[j] != c,
    ensures
        first_index(s, c) == k,
{
    lemma_first_index(s, c);
    assert(has_char(s, c));
}

/// A key of letters and a value without braces: how a field line reads.
proof fn lemma_field_line(key: Seq<char>, value: Seq<char>, comma: bool)
    requires
        key.len() > 0,
        !has_char(key, ':'),
        !has_char(key, '{'),
        !has_char(key, '}'),
        !has_char(value, '{'),
        !has_char(value, '}'),
    ensures
        ({
            let tail = if comma {
                seq![',']
            } else {
                Seq::<char>::empty()
            };
            let rest = seq![' '] + quoted(value) + tail;
            let t = quoted(key) + seq![':'] + rest;
            &&& trim(field_line(key, value, comma)) == t
            &&& !has_char(t, '{')
            &&& !has_char(t, '}')
            &&& split_first(t, ':') == Some((quoted(key), rest))
            &&& value_of(rest) == value
        }),
{
    let tail = if comma {
        seq![',']
    } else {
        Seq::<char>::empty()
    };
    let rest = seq![' '] + quoted(value) + tail;
    let qk = quoted(key);
    let t = qk + seq![':'] + rest;
    assert(field_line(key, value, comma) =~= spaces(8) + t);
    assert(t[0] == '"');
    assert(t.last() == (if comma { ',' } else { '"' }));
    lemma_trim_indented(8, t);
    assert(!has_char(seq!['"'], '{') && !has_char(seq!['"'], '}'));
    assert(!has_char(seq![':'], '{') && !has_char(seq![':'], '}'));
    assert(!has_char(seq![' '], '{') && !has_char(seq![' '], '}'));
    assert(!has_char(tail, '{') && !has_char(tail, '}'));
    lemma_no_char_concat(seq!['"'], key, '{');
    lemma_no_char_concat(seq!['"'] + key, seq!['"'], '{');
    lemma_no_char_concat(seq!['"'], key, '}');
    lemma_no_char_concat(seq!['"'] + key, seq!['"'], '}');
    lemma_no_char_concat(seq!['"'], value, '{');
    lemma_no_char_concat(seq!['"'] + value, seq!['"'], '{');
    lemma_no_char_concat(seq!['"'], value, '}');
    lemma_no_char_concat(seq!['"'] + value, seq!['"'], '}');
    lemma_no_char_concat(seq![' '], quoted(value), '{');
    lemma_no_char_concat(seq![' '] + quoted(value), tail, '{');
    lemma_no_char_concat(seq![' '], quoted(value), '}');
    lemma_no_char_concat(seq![' '] + quoted(value), tail, '}');
    lemma_no_char_concat(qk, seq![':'], '{');
    lemma_no_char_concat(qk + seq![':'], rest, '{');
    lemma_no_char_concat(qk, seq![':'], '}');
    lemma_no_char_concat(qk + seq![':'], rest, '}');
    assert forall|j: int| 0 <= j < qk.len() implies t[j] != ':' by {
        if 0 < j < qk.len() - 1 {
            assert(t[j] == key[j - 1]);
        }
    }
    lemma_first_index_at(t, ':', qk.len() as int);
    assert(t.take(qk.len() as int) =~= qk);
    assert(t.skip(qk.len() as int + 1) =~= rest);
    let u = quoted(value) + tail;
    assert(rest =~= spaces(1) + u);
    assert(u[0] == '"');
    assert(u.last() == (if comma { ',' } else { '"' }));
    lemma_trim_indented(1, u);
    let w = if u.len() > 0 && u.last() == ',' {
        u.drop_last()
    } else {
        u
    };
    assert(w =~= quoted(value));
    assert(w.subrange(1, w.len() - 1) =~= value);
}

/// The state between objects: nothing open, fields as an object starts.
pub open spec fn closed_state(e: Seq<(u32, TaskRecord)>, now: DateTime) -> DecodeState {
    DecodeState { entries: e, open: false, id: 0, record: blank_record(now) }
}

proof fn lemma_plain_key(k: Seq<char>)
    requires
        k.len() > 0,
        forall|i: int| 0 <= i < k.len() ==> 'A' <= #[trigger] k[i] <= 'z',
    ensures
        !has_char(k, ':'),
        !has_char(k, '{'),
        !has_char(k, '}'),
        !has_char(k, '\n'),
{
}

proof fn lemma_keys()
    ensures
        !has_char(id_key(), ':') && !has_char(id_key(), '{') && !has_char(id_key(), '}'),
        !has_char(description_key(), ':') && !has_char(description_key(), '{') && !has_char(
            description_key(),
            '}',
        ),
        !has_char(status_key(), ':') && !has_char(status_key(), '{') && !has_char(status_key(), '}'),
        !has_char(created_key(), ':') && !has_char(created_key(), '{') && !has_char(
            created_key(),
            '}',
        ),
        !has_char(updated_key(), ':') && !has_char(updated_key(), '{') && !has_char(
            updated_key(),
            '}',
        ),
        quoted(id_key()) != quoted(description_key()),
        quoted(id_key()) != quoted(status_key()),
        quoted(id_key()) != quoted(created_key()),
        quoted(id_key()) != quoted(updated_key()),
        quoted(description_key()) != quoted(status_key()),
        quoted(description_key()) != quoted(created_key()),
        quoted(description_key()) != quoted(updated_key()),
        quoted(status_key()) != quoted(created_key()),
        quoted(status_key()) != quoted(updated_key()),
        quoted(created_key()) != quoted(updated_key()),
{
    lemma_plain_key(id_key());
    lemma_plain_key(description_key());
    lemma_plain_key(status_key());
    lemma_plain_key(created_key());
    lemma_plain_key(updated_key());
    assert(quoted(id_key()).len() == 4);
    assert(quoted(description_key()).len() == 13);
    assert(quoted(status_key()).len() == 8);
    assert(quoted(created_key()).len() == 11);
    assert(quoted(updated_key()).len() == 11);
    assert(quoted(created_key())[1] == 'c');
    assert(quoted(updated_key())[1] == 'u');
}

proof fn lemma_step_id(st: DecodeState, id: u32, now: DateTime)
    requires
        st.open,
    ensures
        decode_step(st, field_line(id_key(), decimal(id as nat), true), now) == (DecodeState {
            id,
            ..st
        }),
{
    reveal(decode_step);
    lemma_keys();
    lemma_decimal(id as nat);
    lemma_digits_plain(decimal(id as nat), '{');
    lemma_digits_plain(decimal(id as nat), '}');
    lemma_parse_padded(id as nat, 0, 0xffff_ffff);
    assert(decimal(id as nat) == crate::text::zero_pad(decimal(id as nat), 0));
    lemma_field_line(id_key(), decimal(id as nat), true);
}

proof fn lemma_step_description(st: DecodeState, d: Seq<char>, now: DateTime)
    requires
        st.open,
        !has_char(d, '{'),
        !has_char(d, '}'),
    ensures
        decode_step(st, field_line(description_key(), d, true), now) == (DecodeState {
            record: TaskRecord { description: d, ..st.record },
            ..st
        }),
{
    reveal(decode_step);
    lemma_keys();
    lemma_field_line(description_key(), d, true);
}

proof fn lemma_step_status(st: DecodeState, status: TaskStatus, now: DateTime)
    requires
        st.open,
    ensures
        decode_step(st, field_line(status_key(), status_text(status), true), now) == (DecodeState {
            record: TaskRecord { status, ..st.record },
            ..st
        }),
{
    reveal(decode_step);
    lemma_keys();
    lemma_status_text(status);
    lemma_field_line(status_key(), status_text(status), true);
}

proof fn lemma_step_created(st: DecodeState, at: DateTime, now: DateTime)
    requires
        st.open,
    ensures
        decode_step(st, field_line(created_key(), format_text(at), true), now) == (DecodeState {
            record: TaskRecord { created_at: at, ..st.record },
            ..st
        }),
{
    reveal(decode_step);
    lemma_keys();
    lemma_format_plain(at, '{');
    lemma_format_plain(at, '}');
    lemma_format_parse(at);
    lemma_field_line(created_key(), format_text(at), true);
}

proof fn lemma_step_updated(st: DecodeState, at: DateTime, now: DateTime)
    requires
        st.open,
    ensures
        decode_step(st, field_line(updated_key(), format_text(at), false), now) == (DecodeState {
            record: TaskRecord { updated_at: at, ..st.record },
            ..st
        }),
{
    reveal(decode_step);
    lemma_keys();
    lemma_format_plain(at, '{');
    lemma_format_plain(at, '}');
    lemma_format_parse(at);
    lemma_field_line(updated_key(), format_text(at), false);
}

proof fn lemma_step_open(st: DecodeState, now: DateTime)
    requires
        !st.open,
    ensures
        decode_step(st, spaces(4) + seq!['{'], now) == (DecodeState { open: true, ..st }),
{
    reveal(decode_step);
    lemma_trim_indented(4, seq!['{']);
    assert(has_char(seq!['{'], '{')) by {
        assert(seq!['{'][0] == '{');
    }
    assert(!has_char(seq!['{'], '}'));
    lemma_first_index(seq!['{'], ':');
    assert(!has_char(seq!['{'], ':'));
}

proof fn lemma_step_close(st: DecodeState, last: bool, now: DateTime)
    requires
        st.open,
        !has_id(st.entries, st.id),
    ensures
        decode_step(
            st,
            spaces(4) + if last {
                seq!['}']
            } else {
                seq!['}', ',']
            },
            now,
        ) == closed_state(st.entries.push((st.id, st.record)), now),
{
    reveal(decode_step);
    let close = if last {
        seq!['}']
    } else {
        seq!['}', ',']
    };
    lemma_trim_indented(4, close);
    assert(has_char(close, '}')) by {
        assert(close[0] == '}');
    }
    assert(!has_char(close, '{'));
    lemma_id_index(st.entries, st.id);
    assert(id_index(st.entries, st.id) < 0);
}

/// One object, read from between objects, adds its record under its ID and closes again.
proof fn lemma_decode_object(e: Seq<(u32, TaskRecord)>, id: u32, r: TaskRecord, last: bool, now: DateTime)
    requires
        !has_id(e, id),
        !has_char(r.description, '{'),
        !has_char(r.description, '}'),
    ensures
        decode_from(closed_state(e, now), object_lines(id, r, last), now) == closed_state(
            e.push((id, r)),
            now,
        ),
{
    let l = object_lines(id, r, last);
    let st0 = closed_state(e, now);
    lemma_step_open(st0, now);
    let st1 = DecodeState { open: true, ..st0 };
    lemma_step_id(st1, id, now);
    let st2 = DecodeState { id, ..st1 };
    lemma_step_description(st2, r.description, now);
    let st3 = DecodeState { record: TaskRecord { description: r.description, ..st2.record }, ..st2 };
    lemma_step_status(st3, r.status, now);
    let st4 = DecodeState { record: TaskRecord { status: r.status, ..st3.record }, ..st3 };
    lemma_step_created(st4, r.created_at, now);
    let st5 = DecodeState { record: TaskRecord { created_at: r.created_at, ..st4.record }, ..st4 };
    lemma_step_updated(st5, r.updated_at, now);
    let st6 = DecodeState { record: TaskRecord { updated_at: r.updated_at, ..st5.record }, ..st5 };
    assert(st6.record == r);
    lemma_step_close(st6, last, now);
    let e0 = Seq::<Seq<char>>::empty();
    assert(l.take(1).drop_last() =~= e0);
    assert(l.take(2).drop_last() =~= l.take(1));
    assert(l.take(3).drop_last() =~= l.take(2));
    assert(l.take(4).drop_last() =~= l.take(3));
    assert(l.take(5).drop_last() =~= l.take(4));
    assert(l.take(6).drop_last() =~= l.take(5));
    assert(l.take(7).drop_last() =~= l.take(6));
    assert(l.take(7) =~= l);
    assert(decode_from(st0, e0, now) == st0);
    assert(l[0] == spaces(4) + seq!['{']);
    assert(l.take(1).last() == l[0]);
    assert(decode_from(st0, l.take(1), now) == st1);
    assert(decode_from(st0, l.take(2), now) == st2);
    assert(decode_from(st0, l.take(3), now) == st3);
    assert(decode_from(st0, l.take(4), now) == st4);
    assert(decode_from(st0, l.take(5), now) == st5);
    assert(decode_from(st0, l.take(6), now) == st6);
}

proof fn lemma_field_line_plain(key: Seq<char>, value: Seq<char>, comma: bool, c: char)
    requires
        !has_char(key, c),
        !has_char(value, c),
        c != '"' && c != ':' && c != ' ' && c != ',',
    ensures
        !has_char(field_line(key, value, comma), c),
{
    let tail = if comma {
        seq![',']
    } else {
        Seq::<char>::empty()
    };
    assert(!has_char(spaces(8), c));
    assert(!has_char(seq!['"'], c) && !has_char(seq![':', ' '], c) && !has_char(tail, c));
    lemma_no_char_concat(seq!['"'], key, c);
    lemma_no_char_concat(seq!['"'] + key, seq!['"'], c);
    lemma_no_char_concat(seq!['"'], value, c);
    lemma_no_char_concat(seq!['"'] + value, seq!['"'], c);
    lemma_no_char_concat(spaces(8), quoted(key), c);
    lemma_no_char_concat(spaces(8) + quoted(key), seq![':', ' '], c);
    lemma_no_char_concat(spaces(8) + quoted(key) + seq![':', ' '], quoted(value), c);
    lemma_no_char_concat(spaces(8) + quoted(key) + seq![':', ' '] + quoted(value), tail, c);
}

/// No line of an object holds a line break.
proof fn lemma_object_lines_plain(id: u32, r: TaskRecord, last: bool)
    requires
        !has_char(r.description, '\n'),
    ensures
        forall|i: int| 0 <= i < 7 ==> !has_char(#[trigger] object_lines(id, r, last)[i], '\n'),
{
    let c = '\n';
    let l = object_lines(id, r, last);
    lemma_decimal(id as nat);
    lemma_digits_plain(decimal(id as nat), c);
    lemma_status_text(r.status);
    lemma_format_plain(r.created_at, c);
    lemma_format_plain(r.updated_at, c);
    lemma_plain_key(id_key());
    lemma_plain_key(description_key());
    lemma_plain_key(status_key());
    lemma_plain_key(created_key());
    lemma_plain_key(updated_key());
    lemma_field_line_plain(id_key(), decimal(id as nat), true, c);
    lemma_field_line_plain(description_key(), r.description, true, c);
    lemma_field_line_plain(status_key(), status_text(r.status), true, c);
    lemma_field_line_plain(created_key(), format_text(r.created_at), true, c);
    lemma_field_line_plain(updated_key(), format_text(r.updated_at), false, c);
    let close = if last {
        seq!['}']
    } else {
        seq!['}', ',']
    };
    assert(!has_char(spaces(4), c) && !has_char(seq!['{'], c) && !has_char(close, c));
    lemma_no_char_concat(spaces(4), seq!['{'], c);
    lemma_no_char_concat(spaces(4), close, c);
}

/// The lines of the first `k` objects.
proof fn lemma_objects_lines(s: Seq<(u32, TaskRecord)>, k: int, now: DateTime)
    requires
        0 <= k <= s.len(),
        unique_ids(s),
        forall|i: int|
            0 <= i < s.len() ==> !has_char(#[trigger] s[i].1.description, '{') && !has_char(
                s[i].1.description,
                '}',
            ) && !has_char(s[i].1.description, '\n'),
    ensures
        decode_from(closed_state(Seq::empty(), now), objects_lines(s, k), now) == closed_state(
            s.take(k),
            now,
        ),
        forall|i: int|
            0 <= i < objects_lines(s, k).len() ==> !has_char(
                #[trigger] objects_lines(s, k)[i],
                '\n',
            ),
    decreases k,
{
    let st0 = closed_state(Seq::<(u32, TaskRecord)>::empty(), now);
    if k == 0 {
        assert(s.take(0) =~= Seq::<(u32, TaskRecord)>::empty());
    } else {
        lemma_objects_lines(s, k - 1, now);
        let a = objects_lines(s, k - 1);
        let b = object_lines(s[k - 1].0, s[k - 1].1, k == s.len());
        lemma_decode_append(st0, a, b, now);
        let e = s.take(k - 1);
        assert(!has_id(e, s[k - 1].0)) by {
            if has_id(e, s[k - 1].0) {
                let j = choose|j: int| 0 <= j < e.len() && e[j].0 == s[k - 1].0;
                assert(s[j].0 == s[k - 1].0);
            }
        }
        lemma_decode_object(e, s[k - 1].0, s[k - 1].1, k == s.len(), now);
        assert(e.push((s[k - 1].0, s[k - 1].1)) =~= s.take(k));
        lemma_object_lines_plain(s[k - 1].0, s[k - 1].1, k == s.len());
        assert forall|i: int| 0 <= i < (a + b).len() implies !has_char(#[trigger] (a + b)[i], '\n') by {
            if i >= a.len() {
                assert((a + b)[i] == b[i - a.len()]);
            } else {
                assert((a + b)[i] == a[i]);
            }
        }
    }
}

/// Encoding records and decoding the text gives the same records back, in the same order, when
/// no two records share an ID and no description holds a brace or a line break.
pub proof fn lemma_codec_round_trip(s: Seq<(u32, TaskRecord)>, now: DateTime)
    requires
        unique_ids(s),
        forall|i: int|
            0 <= i < s.len() ==> !has_char(#[trigger] s[i].1.description, '{') && !has_char(
                s[i].1.description,
                '}',
            ) && !has_char(s[i].1.description, '\n'),
    ensures
        decode_text(encode_text(s), now) == s,
        task_map(decode_text(encode_text(s), now)) == task_map(s),
{
    let n = s.len() as int;
    let body = objects_lines(s, n);
    lemma_objects_lines(s, n, now);
    let first = seq![seq!['[']];
    let last = seq![seq![']']];
    let l = encoded_lines(s);
    assert(l == first + body + last);
    assert(!has_char(seq!['['], '\n') && !has_char(seq![']'], '\n'));
    assert forall|i: int| 0 <= i < l.len() implies !has_char(#[trigger] l[i], '\n') by {
        if i == 0 {
            assert(l[i] == seq!['[']);
        } else if i == l.len() - 1 {
            assert(l[i] == seq![']']);
        } else {
            assert(l[i] == body[i - 1]);
        }
    }
    lemma_split_join(l);
    let st0 = closed_state(Seq::<(u32, TaskRecord)>::empty(), now);
    assert(initial_state(now) == st0);
    lemma_decode_append(st0, first + body, last, now);
    lemma_decode_append(st0, first, body, now);
    reveal(decode_step);
    lemma_trim_indented(0, seq!['[']);
    lemma_trim_indented(0, seq![']']);
    assert(!has_char(seq!['['], '{') && !has_char(seq!['['], '}'));
    assert(!has_char(seq![']'], '{') && !has_char(seq![']'], '}'));
    assert(first.drop_last() =~= Seq::<Seq<char>>::empty());
    assert(last.drop_last() =~= Seq::<Seq<char>>::empty());
    assert(spaces(0) + seq!['['] =~= seq!['[']);
    assert(spaces(0) + seq![']'] =~= seq![']']);
    assert(trim(seq!['[']) == seq!['[']);
    assert(trim(seq![']']) == seq![']']);
    assert(decode_from(st0, Seq::<Seq<char>>::empty(), now) == st0);
    assert(first.last() == seq!['[']);
    assert(decode_step(st0, seq!['['], now) == st0);
    assert(decode_from(st0, first, now) == st0);
    assert(s.take(n) =~= s);
    let st1 = closed_state(s, now);
    assert(decode_from(st1, Seq::<Seq<char>>::empty(), now) == st1);
    assert(last.last() == seq![']']);
    assert(decode_step(st1, seq![']'], now) == st1);
    assert(decode_from(st1, last, now) == st1);
}

} // verus!
