//! Serializing a multimap and parsing the bytes again gives the multimap back.

use crate::codec::{
    after_first_line, after_folded, body_lines, crlf, entry_lines, first_line, folded,
    header_line, merge, parse_bytes, parse_rest, pieces, version_line, version_prefix, wire_text,
    HeaderError,
};
use crate::headers::{
    has_name, index_of, lemma_index_of, names_distinct, string_set, values_for, HeaderEntry,
    Headers,
};
use crate::text::{
    continues, is_whitespace, lemma_position_absent, position, trim, trim_end, trim_start,
};
use vstd::prelude::*;
use vstd::utf8::*;

verus! {

/// A name that comes back from the wire as it went: nothing to trim, no
/// colon and no line feed.
pub open spec fn clean_name(n: Seq<char>) -> bool {
    &&& trim(n) == n
    &&& forall|j: int| 0 <= j < n.len() ==> n[j] != ':' && n[j] != '\n'
}

/// A value that comes back from the wire as it went: nothing to trim, no
/// comma and no line feed.
pub open spec fn clean_value(v: Seq<char>) -> bool {
    &&& trim(v) == v
    &&& forall|j: int| 0 <= j < v.len() ==> v[j] != ',' && v[j] != '\n'
}

/// Every name and every value of `entries` is clean.
pub open spec fn clean(entries: Seq<HeaderEntry>) -> bool {
    forall|i: int|
        0 <= i < entries.len() ==> clean_name((#[trigger] entries[i]).name@) && clean_values(
            entries[i].values@,
        )
}

/// Every one of `values` is clean.
pub open spec fn clean_values(values: Seq<String>) -> bool {
    forall|j: int| 0 <= j < values.len() ==> clean_value((#[trigger] values[j])@)
}

/// `t` does not begin like a continuation line.
pub open spec fn starts_plain(t: Seq<char>) -> bool {
    t.len() == 0 || !continues(t[0])
}

/// `acc` with each of `values` added under `name`, one after the other.
pub open spec fn with_values(
    acc: Map<Seq<char>, Set<Seq<char>>>,
    name: Seq<char>,
    values: Seq<String>,
) -> Map<Seq<char>, Set<Seq<char>>>
    decreases values.len(),
{
    if values.len() == 0 {
        acc
    } else {
        with_values(
            acc.insert(name, values_for(acc, name).insert(values[0]@)),
            name,
            values.skip(1),
        )
    }
}

/// `acc` with the values of each of `entries` added, one entry after the other.
pub open spec fn with_entries(acc: Map<Seq<char>, Set<Seq<char>>>, entries: Seq<HeaderEntry>) -> Map<
    Seq<char>,
    Set<Seq<char>>,
>
    decreases entries.len(),
{
    if entries.len() == 0 {
        acc
    } else {
        with_entries(with_values(acc, entries[0].name@, entries[0].values@), entries.skip(1))
    }
}

proof fn lemma_trim_start_len(s: Seq<char>)
    ensures
        trim_start(s).len() <= s.len(),
    decreases s.len(),
{
    if s.len() > 0 && is_whitespace(s[0]) {
        lemma_trim_start_len(s.skip(1));
    }
}

proof fn lemma_trim_end_len(s: Seq<char>)
    ensures
        trim_end(s).len() <= s.len(),
    decreases s.len(),
{
    if s.len() > 0 && is_whitespace(s.last()) {
        lemma_trim_end_len(s.drop_last());
    }
}

/// A sequence that trimming leaves alone does not begin with whitespace.
proof fn lemma_trimmed_start(n: Seq<char>)
    requires
        trim(n) == n,
    ensures
        n.len() == 0 || !is_whitespace(n[0]),
{
    if n.len() > 0 && is_whitespace(n[0]) {
        lemma_trim_start_len(n.skip(1));
        lemma_trim_end_len(trim_start(n));
    }
}

/// Where `c` stands at `k` and nowhere before, `position` finds `k`.
proof fn lemma_position_at(s: Seq<char>, c: char, k: int)
    requires
        0 <= k < s.len(),
        s[k] == c,
        forall|j: int| 0 <= j < k ==> s[j] != c,
    ensures
        position(s, c) == k,
    decreases k,
{
    if k > 0 {
        let r = s.skip(1);
        assert(s[0] != c);
        assert(r[k - 1] == s[k]);
        assert forall|j: int| 0 <= j < k - 1 implies r[j] != c by {
            assert(r[j] == s[j + 1]);
        }
        lemma_position_at(r, c, k - 1);
    }
}

/// Parsing the line of one clean name and value adds that value under that
/// name and goes on with what follows the line.
proof fn lemma_parse_header_line(
    n: Seq<char>,
    v: Seq<char>,
    tail: Seq<char>,
    acc: Map<Seq<char>, Set<Seq<char>>>,
)
    requires
        clean_name(n),
        clean_value(v),
        starts_plain(tail),
    ensures
        parse_rest(header_line(n, v) + tail, acc) == parse_rest(
            tail,
            acc.insert(n, values_for(acc, n).insert(v)),
        ),
{
    let line = n + seq![':'] + v;
    let rest = header_line(n, v) + tail;
    let b: int = line.len() as int + 1;
    assert(header_line(n, v) =~= line + crlf());
    assert(rest[b] == '\n');
    assert forall|j: int| 0 <= j < b implies rest[j] != '\n' by {
        if j < n.len() {
            assert(rest[j] == n[j]);
        } else if j == n.len() {
            assert(rest[j] == ':');
        } else if j < line.len() {
            assert(rest[j] == v[j - n.len() - 1]);
        } else {
            assert(rest[j] == '\r');
        }
    }
    lemma_position_at(rest, '\n', b);
    assert(rest.take(b) =~= line.push('\r'));
    assert(line.push('\r').drop_last() =~= line);
    assert(first_line(rest) == line);
    assert(rest.skip(b + 1) =~= tail);
    assert(after_first_line(rest) == tail);
    assert(line[n.len() as int] == ':');
    assert forall|j: int| 0 <= j < n.len() implies line[j] != ':' by {
        assert(line[j] == n[j]);
    }
    lemma_position_at(line, ':', n.len() as int);
    assert(line.take(n.len() as int) =~= n);
    assert(line.skip(n.len() + 1 as int) =~= v);
    assert(folded(tail) =~= Seq::<char>::empty());
    assert(v + folded(tail) =~= v);
    assert(after_folded(tail) == tail);
    lemma_position_absent(v, ',');
    assert(pieces(v) == set![v]);
    assert(values_for(acc, n).union(set![v]) =~= values_for(acc, n).insert(v));
    assert(merge(acc, n, v) == acc.insert(n, values_for(acc, n).insert(v)));
}

proof fn lemma_header_line_starts_plain(n: Seq<char>, v: Seq<char>, tail: Seq<char>)
    requires
        clean_name(n),
    ensures
        starts_plain(header_line(n, v) + tail),
{
    lemma_trimmed_start(n);
    let t = header_line(n, v) + tail;
    if n.len() > 0 {
        assert(t[0] == n[0]);
    } else {
        assert(t[0] == ':');
    }
}

proof fn lemma_entry_lines_start_plain(n: Seq<char>, values: Seq<String>, tail: Seq<char>)
    requires
        clean_name(n),
        starts_plain(tail),
    ensures
        starts_plain(entry_lines(n, values) + tail),
{
    if values.len() == 0 {
        assert(entry_lines(n, values) + tail =~= tail);
    } else {
        let head = header_line(n, values[0]@);
        let more = entry_lines(n, values.skip(1));
        assert(entry_lines(n, values) + tail =~= head + (more + tail));
        lemma_header_line_starts_plain(n, values[0]@, more + tail);
    }
}

proof fn lemma_body_lines_start_plain(entries: Seq<HeaderEntry>, tail: Seq<char>)
    requires
        clean(entries),
        starts_plain(tail),
    ensures
        starts_plain(body_lines(entries) + tail),
    decreases entries.len(),
{
    if entries.len() == 0 {
        assert(body_lines(entries) + tail =~= tail);
    } else {
        let others = entries.skip(1);
        assert forall|i: int| 0 <= i < others.len() implies clean_name(
            (#[trigger] others[i]).name@,
        ) && clean_values(others[i].values@) by {
            assert(others[i] == entries[i + 1]);
        }
        lemma_body_lines_start_plain(others, tail);
        let head = entry_lines(entries[0].name@, entries[0].values@);
        assert(body_lines(entries) + tail =~= head + (body_lines(others) + tail));
        lemma_entry_lines_start_plain(
            entries[0].name@,
            entries[0].values@,
            body_lines(others) + tail,
        );
    }
}

/// Parsing the lines of one clean entry adds its values under its name.
proof fn lemma_parse_entry_lines(
    n: Seq<char>,
    values: Seq<String>,
    tail: Seq<char>,
    acc: Map<Seq<char>, Set<Seq<char>>>,
)
    requires
        clean_name(n),
        clean_values(values),
        starts_plain(tail),
    ensures
        parse_rest(entry_lines(n, values) + tail, acc) == parse_rest(
            tail,
            with_values(acc, n, values),
        ),
    decreases values.len(),
{
    if values.len() == 0 {
        assert(entry_lines(n, values) + tail =~= tail);
    } else {
        let v = values[0]@;
        let others = values.skip(1);
        let more = entry_lines(n, others);
        assert(entry_lines(n, values) + tail =~= header_line(n, v) + (more + tail));
        assert forall|j: int| 0 <= j < others.len() implies clean_value((#[trigger] others[j])@) by {
            assert(others[j] == values[j + 1]);
        }
        lemma_entry_lines_start_plain(n, others, tail);
        lemma_parse_header_line(n, v, more + tail, acc);
        lemma_parse_entry_lines(n, others, tail, acc.insert(n, values_for(acc, n).insert(v)));
    }
}

/// Parsing the lines of clean entries adds the values of each.
proof fn lemma_parse_body_lines(
    entries: Seq<HeaderEntry>,
    tail: Seq<char>,
    acc: Map<Seq<char>, Set<Seq<char>>>,
)
    requires
        clean(entries),
        starts_plain(tail),
    ensures
        parse_rest(body_lines(entries) + tail, acc) == parse_rest(tail, with_entries(acc, entries)),
    decreases entries.len(),
{
    if entries.len() == 0 {
        assert(body_lines(entries) + tail =~= tail);
    } else {
        let e = entries[0];
        let others = entries.skip(1);
        assert forall|i: int| 0 <= i < others.len() implies clean_name(
            (#[trigger] others[i]).name@,
        ) && clean_values(others[i].values@) by {
            assert(others[i] == entries[i + 1]);
        }
        let head = entry_lines(e.name@, e.values@);
        assert(body_lines(entries) + tail =~= head + (body_lines(others) + tail));
        lemma_body_lines_start_plain(others, tail);
        lemma_parse_entry_lines(e.name@, e.values@, body_lines(others) + tail, acc);
        lemma_parse_body_lines(others, tail, with_values(acc, e.name@, e.values@));
    }
}

proof fn lemma_string_set_front(values: Seq<String>)
    requires
        values.len() > 0,
    ensures
        string_set(values) == string_set(values.skip(1)).insert(values[0]@),
{
    let others = values.skip(1);
    let a = string_set(values);
    let b = string_set(others).insert(values[0]@);
    assert forall|x: Seq<char>| a.contains(x) implies b.contains(x) by {
        let j = choose|j: int| 0 <= j < values.len() && (#[trigger] values[j])@ == x;
        if j > 0 {
            assert(others[j - 1] == values[j]);
        }
    }
    assert forall|x: Seq<char>| b.contains(x) implies a.contains(x) by {
        if x == values[0]@ {
            assert(values[0]@ == x);
        } else {
            let j = choose|j: int| 0 <= j < others.len() && (#[trigger] others[j])@ == x;
            assert(values[j + 1] == others[j]);
        }
    }
    assert(a =~= b);
}

/// Adding values one by one adds their set.
proof fn lemma_with_values(
    acc: Map<Seq<char>, Set<Seq<char>>>,
    name: Seq<char>,
    values: Seq<String>,
)
    requires
        values.len() > 0,
    ensures
        with_values(acc, name, values) == acc.insert(
            name,
            values_for(acc, name).union(string_set(values)),
        ),
    decreases values.len(),
{
    let base = values_for(acc, name);
    let v = values[0]@;
    let others = values.skip(1);
    let acc1 = acc.insert(name, base.insert(v));
    lemma_string_set_front(values);
    if others.len() == 0 {
        assert(string_set(others) =~= Set::<Seq<char>>::empty());
        assert(base.union(string_set(values)) =~= base.insert(v));
        assert(with_values(acc1, name, others) == acc1);
    } else {
        lemma_with_values(acc1, name, others);
        assert(values_for(acc1, name) == base.insert(v));
        assert(base.insert(v).union(string_set(others)) =~= base.union(string_set(values)));
        assert(acc1.insert(name, base.union(string_set(values))) =~= acc.insert(
            name,
            base.union(string_set(values)),
        ));
    }
}

/// Adding entries with distinct names to the empty map, one by one, gives
/// the map that the entries stand for.
proof fn lemma_with_entries(acc: Map<Seq<char>, Set<Seq<char>>>, entries: Seq<HeaderEntry>)
    requires
        names_distinct(entries),
        forall|i: int| 0 <= i < entries.len() ==> (#[trigger] entries[i]).values@.len() > 0,
    ensures
        forall|k: Seq<char>|
            #![trigger with_entries(acc, entries).contains_key(k)]
            with_entries(acc, entries).contains_key(k) <==> acc.contains_key(k) || has_name(
                entries,
                k,
            ),
        forall|k: Seq<char>|
            has_name(entries, k) ==> #[trigger] with_entries(acc, entries)[k] == values_for(
                acc,
                k,
            ).union(string_set(entries[index_of(entries, k)].values@)),
        forall|k: Seq<char>|
            !has_name(entries, k) && acc.contains_key(k) ==> #[trigger] with_entries(
                acc,
                entries,
            )[k] == acc[k],
    decreases entries.len(),
{
    if entries.len() == 0 {
        assert forall|k: Seq<char>|
            #![trigger with_entries(acc, entries).contains_key(k)]
            with_entries(acc, entries).contains_key(k) <==> acc.contains_key(k) || has_name(
                entries,
                k,
            ) by {
            assert(!has_name(entries, k));
        }
    } else {
        let e = entries[0];
        let others = entries.skip(1);
        let acc1 = with_values(acc, e.name@, e.values@);
        lemma_with_values(acc, e.name@, e.values@);
        assert forall|i: int, j: int| 0 <= i < j < others.len() implies (#[trigger] others[i]).name@
            != (#[trigger] others[j]).name@ by {
            assert(others[i] == entries[i + 1]);
            assert(others[j] == entries[j + 1]);
        }
        assert forall|i: int| 0 <= i < others.len() implies (#[trigger] others[i]).values@.len()
            > 0 by {
            assert(others[i] == entries[i + 1]);
        }
        lemma_with_entries(acc1, others);
        let out = with_entries(acc, entries);
        assert(out == with_entries(acc1, others));
        assert forall|k: Seq<char>|
            #![trigger with_entries(acc, entries).contains_key(k)]
            with_entries(acc, entries).contains_key(k) <==> acc.contains_key(k) || has_name(
                entries,
                k,
            ) by {
            lemma_has_name_split(entries, k);
            assert(out.contains_key(k) <==> acc1.contains_key(k) || has_name(others, k));
        }
        assert forall|k: Seq<char>| has_name(entries, k) implies #[trigger] out[k] == values_for(
            acc,
            k,
        ).union(string_set(entries[index_of(entries, k)].values@)) by {
            lemma_has_name_split(entries, k);
            if k == e.name@ {
                assert(!has_name(others, k));
                assert(acc1.contains_key(k));
                assert(out[k] == acc1[k]);
            } else {
                assert(has_name(others, k));
                assert(values_for(acc1, k) == values_for(acc, k));
                assert(out[k] == values_for(acc1, k).union(
                    string_set(others[index_of(others, k)].values@),
                ));
            }
        }
        assert forall|k: Seq<char>| !has_name(entries, k) && acc.contains_key(k) implies #[trigger] out[k]
            == acc[k] by {
            lemma_has_name_split(entries, k);
            assert(!has_name(others, k));
            assert(k != e.name@);
            assert(acc1.contains_key(k));
            assert(out[k] == acc1[k]);
        }
    }
}

/// A name is among the entries where it is the first one's or among the
/// others; with distinct names not both, and it finds the same entry.
proof fn lemma_has_name_split(entries: Seq<HeaderEntry>, k: Seq<char>)
    requires
        names_distinct(entries),
        entries.len() > 0,
    ensures
        has_name(entries, k) <==> k == entries[0].name@ || has_name(entries.skip(1), k),
        k == entries[0].name@ ==> index_of(entries, k) == 0 && !has_name(entries.skip(1), k),
        has_name(entries.skip(1), k) ==> entries[index_of(entries, k)] == entries.skip(1)[index_of(
            entries.skip(1),
            k,
        )],
{
    let others = entries.skip(1);
    lemma_index_of(entries, 0);
    if has_name(others, k) {
        let j = index_of(others, k);
        assert(others[j] == entries[j + 1]);
        lemma_index_of(entries, j + 1);
        assert(entries[0].name@ != entries[j + 1].name@);
    }
    if has_name(entries, k) && k != entries[0].name@ {
        let i = index_of(entries, k);
        assert(others[i - 1] == entries[i]);
    }
}

/// Serializing a multimap whose names and values are clean, and parsing the
/// bytes again, gives a multimap with the same set of values under each name.
pub proof fn lemma_serialize_then_parse(h: Headers)
    requires
        h.wf(),
        clean(h.inner@),
    ensures
        parse_bytes(encode_utf8(wire_text(h.inner@))) == Ok::<
            Map<Seq<char>, Set<Seq<char>>>,
            HeaderError,
        >(h@),
{
    let entries = h.inner@;
    let t = wire_text(entries);
    encode_utf8_valid_utf8(t);
    encode_utf8_decode_utf8(t);
    let body = body_lines(entries) + crlf();
    assert(t =~= version_line() + body);
    assert(t[9] == '\n');
    assert forall|j: int| 0 <= j < 9 implies t[j] != '\n' by {
        assert(t[j] == version_line()[j]);
    }
    lemma_position_at(t, '\n', 9);
    let first = seq!['N', 'A', 'T', 'S', '/', '1', '.', '0'];
    assert(t.take(9) =~= first.push('\r'));
    assert(first.push('\r').drop_last() =~= first);
    assert(first_line(t) == first);
    assert(version_prefix() =~= first.subrange(0, 5));
    assert(t.skip(10) =~= body);
    assert(starts_plain(crlf()));
    lemma_parse_body_lines(entries, crlf(), Map::empty());
    let m = with_entries(Map::empty(), entries);
    let end = crlf();
    lemma_position_at(end, '\n', 1);
    assert(end.take(1) =~= Seq::<char>::empty().push('\r'));
    assert(Seq::<char>::empty().push('\r').drop_last() =~= Seq::<char>::empty());
    assert(first_line(end) =~= Seq::<char>::empty());
    assert(after_first_line(end) =~= Seq::<char>::empty());
    assert(parse_rest(after_first_line(end), m) == Ok::<_, HeaderError>(m));
    assert(parse_rest(end, m) == Ok::<_, HeaderError>(m));
    lemma_with_entries(Map::empty(), entries);
    assert forall|k: Seq<char>| m.contains_key(k) implies m[k] == h@[k] by {
        assert(has_name(entries, k));
        assert(Set::<Seq<char>>::empty().union(string_set(entries[index_of(entries, k)].values@))
            =~= string_set(entries[index_of(entries, k)].values@));
    }
    assert(m =~= h@);
}

} // verus!
