//! The wire format of a header block: parsing and serializing.

use crate::headers::{values_for, HeaderEntry, Headers};
use crate::text::{
    chars_of, continues, decode_text, find, is_continuation, position, push_all, push_char,
    to_string, trim, trimmed,
};
use vstd::prelude::*;
use vstd::slice::slice_subrange;
use vstd::string::*;
use vstd::utf8::*;

verus! {

broadcast use vstd::string::group_string_axioms;

/// Why a header block was refused.
#[derive(Clone, Copy, Debug, PartialEq, Eq, Structural)]
pub enum HeaderError {
    /// The bytes are not valid UTF-8.
    InvalidEncoding,
    /// The input holds no line at all.
    MissingHeaderBlock,
    /// The first line does not begin with `NATS/`.
    MalformedVersionLine,
    /// A line that is not blank holds no colon.
    MalformedHeaderLine,
}

impl HeaderError {
    /// The words that describe the error.
    pub open spec fn message_spec(&self) -> Seq<char> {
        match self {
            HeaderError::InvalidEncoding => "invalid utf8 received"@,
            HeaderError::MissingHeaderBlock => "expected header information not present"@,
            HeaderError::MalformedVersionLine => "version line does not begin with NATS/"@,
            HeaderError::MalformedHeaderLine => "malformed header input"@,
        }
    }

    /// The words that describe the error.
    pub fn message(&self) -> (r: String)
        ensures
            r@ == self.message_spec(),
    {
        match self {
            HeaderError::InvalidEncoding => String::from_str("invalid utf8 received"),
            HeaderError::MissingHeaderBlock => String::from_str(
                "expected header information not present",
            ),
            HeaderError::MalformedVersionLine => String::from_str(
                "version line does not begin with NATS/",
            ),
            HeaderError::MalformedHeaderLine => String::from_str("malformed header input"),
        }
    }
}

/// The prefix that opens the version line.
pub open spec fn version_prefix() -> Seq<char> {
    seq!['N', 'A', 'T', 'S', '/']
}

/// `line` without one trailing carriage return.
pub open spec fn strip_cr(line: Seq<char>) -> Seq<char> {
    if line.len() > 0 && line.last() == '\r' {
        line.drop_last()
    } else {
        line
    }
}

/// The first line of `t`: what stands before the first line feed, less a
/// carriage return that ends it, or all of `t` where no line feed follows.
pub open spec fn first_line(t: Seq<char>) -> Seq<char> {
    let b = position(t, '\n');
    if b < t.len() {
        strip_cr(t.take(b as int))
    } else {
        t
    }
}

/// What follows the first line of `t` and its line feed.
pub open spec fn after_first_line(t: Seq<char>) -> Seq<char> {
    let b = position(t, '\n');
    if b < t.len() {
        t.skip(b + 1 as int)
    } else {
        Seq::empty()
    }
}

/// The content that the continuation lines at the start of `t` add to the
/// value before them: each line less its first character, nothing between.
pub open spec fn folded(t: Seq<char>) -> Seq<char>
    decreases t.len(),
{
    if t.len() > 0 && continues(t[0]) {
        first_line(t).skip(1) + folded(after_first_line(t))
    } else {
        Seq::empty()
    }
}

/// What is left of `t` after the continuation lines at its start.
pub open spec fn after_folded(t: Seq<char>) -> Seq<char>
    decreases t.len(),
{
    if t.len() > 0 && continues(t[0]) {
        after_folded(after_first_line(t))
    } else {
        t
    }
}

/// The set of values in a folded header value: its comma-separated pieces,
/// each trimmed.
pub open spec fn pieces(v: Seq<char>) -> Set<Seq<char>>
    decreases v.len(),
{
    let p = position(v, ',');
    if p < v.len() {
        pieces(v.skip(p + 1 as int)).insert(trim(v.take(p as int)))
    } else {
        set![trim(v)]
    }
}

/// `m` with the pieces of `value` added to the set under `name`.
pub open spec fn merge(m: Map<Seq<char>, Set<Seq<char>>>, name: Seq<char>, value: Seq<char>) -> Map<
    Seq<char>,
    Set<Seq<char>>,
> {
    m.insert(name, values_for(m, name).union(pieces(value)))
}

/// The continuation lines never reach past the text they stand in.
pub proof fn lemma_after_folded_len(t: Seq<char>)
    ensures
        after_folded(t).len() <= t.len(),
    decreases t.len(),
{
    if t.len() > 0 && continues(t[0]) {
        lemma_after_folded_len(after_first_line(t));
    }
}

/// The headers that the lines of `rest` add to `acc`, or the first error
/// among them. A line without a colon is passed over where it is blank and
/// refused where it is not; any other line is a name, a colon and a value,
/// which the continuation lines after it extend.
pub open spec fn parse_rest(rest: Seq<char>, acc: Map<Seq<char>, Set<Seq<char>>>) -> Result<
    Map<Seq<char>, Set<Seq<char>>>,
    HeaderError,
>
    decreases rest.len(),
    via parse_rest_decreases
{
    if rest.len() == 0 {
        Ok(acc)
    } else {
        let line = first_line(rest);
        let next = after_first_line(rest);
        let c = position(line, ':');
        if c < line.len() {
            let name = trim(line.take(c as int));
            let value = trim(line.skip(c + 1 as int)) + folded(next);
            parse_rest(after_folded(next), merge(acc, name, value))
        } else if trim(line).len() == 0 {
            parse_rest(next, acc)
        } else {
            Err(HeaderError::MalformedHeaderLine)
        }
    }
}

#[via_fn]
proof fn parse_rest_decreases(rest: Seq<char>, acc: Map<Seq<char>, Set<Seq<char>>>) {
    if rest.len() > 0 {
        lemma_after_folded_len(after_first_line(rest));
    }
}

/// What a header block means: the map of its headers, or why it is refused.
pub open spec fn parse_block(t: Seq<char>) -> Result<Map<Seq<char>, Set<Seq<char>>>, HeaderError> {
    if t.len() == 0 {
        Err(HeaderError::MissingHeaderBlock)
    } else if !version_prefix().is_prefix_of(first_line(t)) {
        Err(HeaderError::MalformedVersionLine)
    } else {
        parse_rest(after_first_line(t), Map::empty())
    }
}

/// What the bytes of a header block mean: they are read as UTF-8, and the
/// text as a block.
pub open spec fn parse_bytes(b: Seq<u8>) -> Result<Map<Seq<char>, Set<Seq<char>>>, HeaderError> {
    if valid_utf8(b) {
        parse_block(decode_utf8(b))
    } else {
        Err(HeaderError::InvalidEncoding)
    }
}

/// Whether `r` is the outcome `expected`, read through the view.
pub open spec fn outcome_is(
    r: Result<Headers, HeaderError>,
    expected: Result<Map<Seq<char>, Set<Seq<char>>>, HeaderError>,
) -> bool {
    match expected {
        Ok(m) => r matches Ok(h) && h.wf() && h@ == m,
        Err(e) => r matches Err(f) && f == e,
    }
}

/// Splits `t` into its first line and what follows it.
pub fn split_line(t: &[char]) -> (r: (&[char], &[char]))
    ensures
        r.0@ == first_line(t@),
        r.1@ == after_first_line(t@),
        t@.len() > 0 ==> r.1@.len() < t@.len(),
        t@.len() > 0 && continues(t@[0]) ==> r.0@.len() > 0,
{
    let b = find(t, '\n');
    if b < t.len() {
        let rest = slice_subrange(t, b + 1, t.len());
        let end: usize = if b > 0 && t[b - 1] == '\r' {
            b - 1
        } else {
            b
        };
        let line = slice_subrange(t, 0, end);
        proof {
            let raw = t@.take(b as int);
            if b > 0 {
                assert(raw.last() == t@[b - 1]);
                assert(raw.drop_last() =~= t@.subrange(0, b - 1));
            }
            assert(raw =~= t@.subrange(0, b as int));
            assert(t@.skip(b + 1) =~= t@.subrange(b + 1, t@.len() as int));
            if continues(t@[0]) {
                assert(b > 0);
                assert(raw[0] == t@[0]);
            }
        }
        (line, rest)
    } else {
        let rest = slice_subrange(t, t.len(), t.len());
        proof {
            assert(rest@ =~= Seq::<char>::empty());
        }
        (t, rest)
    }
}

impl Headers {
    /// Records under `name` every comma-separated piece of `value`, trimmed.
    pub fn add_values(&mut self, name: &String, value: &[char])
        requires
            old(self).wf(),
        ensures
            final(self).wf(),
            final(self)@ == merge(old(self)@, name@, value@),
    {
        let ghost start = self@;
        let ghost base = values_for(start, name@);
        let ghost mut done: Set<Seq<char>> = Set::empty();
        let mut rest: &[char] = value;
        loop
            invariant
                self.wf(),
                done.len() == 0 ==> self@ == start && done == Set::<Seq<char>>::empty(),
                done.len() > 0 ==> self@ == start.insert(name@, base.union(done)),
                done.finite(),
                pieces(value@) == done.union(pieces(rest@)),
                base == values_for(start, name@),
                start == old(self)@,
            decreases rest@.len(),
        {
            let p = find(rest, ',');
            let piece = trimmed(slice_subrange(rest, 0, p));
            let ghost before = self@;
            let ghost was = done;
            self.insert(name.clone(), to_string(piece));
            proof {
                assert(rest@.subrange(0, p as int) =~= rest@.take(p as int));
                done = was.insert(piece@);
                if was.len() == 0 {
                    assert(base.union(done) =~= base.insert(piece@));
                } else {
                    assert(values_for(before, name@) == base.union(was));
                    assert(base.union(done) =~= base.union(was).insert(piece@));
                }
                assert(self@ =~= start.insert(name@, base.union(done)));
                assert(done.len() > 0);
            }
            if p == rest.len() {
                proof {
                    assert(rest@.take(p as int) =~= rest@);
                    assert(pieces(rest@) =~= set![piece@]);
                    assert(was.union(pieces(rest@)) =~= done);
                    assert(pieces(value@) == done);
                }
                return;
            }
            proof {
                assert(was.union(pieces(rest@)) =~= done.union(pieces(rest@.skip(p + 1))));
                assert(rest@.skip(p + 1) =~= rest@.subrange(p + 1, rest@.len() as int));
            }
            rest = slice_subrange(rest, p + 1, rest.len());
        }
    }

    /// Parses the text of a header block.
    pub fn parse_text(text: &[char]) -> (r: Result<Headers, HeaderError>)
        ensures
            outcome_is(r, parse_block(text@)),
    {
        if text.len() == 0 {
            return Err(HeaderError::MissingHeaderBlock);
        }
        let (version, body) = split_line(text);
        if !starts_with_version(version) {
            return Err(HeaderError::MalformedVersionLine);
        }
        let mut headers = Headers::new();
        let mut rest: &[char] = body;
        while rest.len() > 0
            invariant
                headers.wf(),
                parse_rest(rest@, headers@) == parse_block(text@),
            decreases rest@.len(),
        {
            let (line, next) = split_line(rest);
            let c = find(line, ':');
            if c < line.len() {
                let name = to_string(trimmed(slice_subrange(line, 0, c)));
                let first = trimmed(slice_subrange(line, c + 1, line.len()));
                let mut value: Vec<char> = Vec::new();
                append(&mut value, first);
                let mut after: &[char] = next;
                while after.len() > 0 && is_continuation(after[0])
                    invariant
                        value@ + folded(after@) == first@ + folded(next@),
                        after_folded(after@) == after_folded(next@),
                        after@.len() <= next@.len(),
                    decreases after@.len(),
                {
                    let (more, then) = split_line(after);
                    let ghost was = value@;
                    append(&mut value, slice_subrange(more, 1, more.len()));
                    proof {
                        assert(more@.subrange(1, more@.len() as int) =~= more@.skip(1));
                        assert(was + more@.skip(1) + folded(then@) =~= was + (more@.skip(1) + folded(
                            then@,
                        )));
                    }
                    after = then;
                }
                proof {
                    assert(value@ + folded(after@) =~= value@);
                    assert(line@.subrange(0, c as int) =~= line@.take(c as int));
                    assert(line@.subrange(c + 1, line@.len() as int) =~= line@.skip(c + 1));
                }
                headers.add_values(&name, value.as_slice());
                rest = after;
            } else if trimmed(line).len() == 0 {
                rest = next;
            } else {
                return Err(HeaderError::MalformedHeaderLine);
            }
        }
        Ok(headers)
    }

    /// Parses a header block from its bytes.
    pub fn try_from(buf: &[u8]) -> (r: Result<Headers, HeaderError>)
        ensures
            outcome_is(r, parse_bytes(buf@)),
    {
        match decode_text(buf) {
            None => Err(HeaderError::InvalidEncoding),
            Some(s) => {
                proof {
                    encode_utf8_decode_utf8(s@);
                }
                let text = chars_of(s);
                Headers::parse_text(text.as_slice())
            },
        }
    }
}

/// Whether `line` begins with the version prefix.
fn starts_with_version(line: &[char]) -> (r: bool)
    ensures
        r == version_prefix().is_prefix_of(line@),
{
    let r = line.len() >= 5 && line[0] == 'N' && line[1] == 'A' && line[2] == 'T' && line[3] == 'S'
        && line[4] == '/';
    proof {
        if r {
            assert(version_prefix() =~= line@.subrange(0, 5));
        } else if line@.len() >= 5 {
            let p = version_prefix();
            assert(p[0] == 'N' && p[1] == 'A' && p[2] == 'T' && p[3] == 'S' && p[4] == '/');
        }
    }
    r
}

/// Appends the characters of `more` to `out`.
fn append(out: &mut Vec<char>, more: &[char])
    ensures
        final(out)@ == old(out)@ + more@,
{
    let mut i: usize = 0;
    while i < more.len()
        invariant
            i <= more@.len(),
            out@ == old(out)@ + more@.take(i as int),
        decreases more@.len() - i,
    {
        out.push(more[i]);
        proof {
            assert(more@.take(i + 1) =~= more@.take(i as int).push(more@[i as int]));
            assert(out@ =~= old(out)@ + more@.take(i + 1));
        }
        i += 1;
    }
    proof {
        assert(more@.take(i as int) =~= more@);
    }
}

/// The line that opens every serialized block.
pub open spec fn version_line() -> Seq<char> {
    seq!['N', 'A', 'T', 'S', '/', '1', '.', '0', '\r', '\n']
}

/// The line end of the wire format.
pub open spec fn crlf() -> Seq<char> {
    seq!['\r', '\n']
}

/// The line that carries one value of one header.
pub open spec fn header_line(name: Seq<char>, value: Seq<char>) -> Seq<char> {
    trim(name) + seq![':'] + trim(value) + crlf()
}

/// One line for each of `values`, in their order, all under `name`.
pub open spec fn entry_lines(name: Seq<char>, values: Seq<String>) -> Seq<char>
    decreases values.len(),
{
    if values.len() == 0 {
        Seq::empty()
    } else {
        header_line(name, values[0]@) + entry_lines(name, values.skip(1))
    }
}

/// The lines of all of `entries`, in their order.
pub open spec fn body_lines(entries: Seq<HeaderEntry>) -> Seq<char>
    decreases entries.len(),
{
    if entries.len() == 0 {
        Seq::empty()
    } else {
        entry_lines(entries[0].name@, entries[0].values@) + body_lines(entries.skip(1))
    }
}

/// The text of the block that stands for `entries`.
pub open spec fn wire_text(entries: Seq<HeaderEntry>) -> Seq<char> {
    version_line() + body_lines(entries) + crlf()
}

impl Headers {
    /// Serializes the headers: the version line, one line for each value of
    /// each header, and an empty line.
    pub fn to_bytes(&self) -> (r: Vec<u8>)
        ensures
            r@ == encode_utf8(wire_text(self.inner@)),
    {
        let mut out = String::new();
        push_char(&mut out, 'N');
        push_char(&mut out, 'A');
        push_char(&mut out, 'T');
        push_char(&mut out, 'S');
        push_char(&mut out, '/');
        push_char(&mut out, '1');
        push_char(&mut out, '.');
        push_char(&mut out, '0');
        push_char(&mut out, '\r');
        push_char(&mut out, '\n');
        assert(out@ =~= version_line());
        let mut i: usize = 0;
        assert(self.inner@.skip(0) =~= self.inner@);
        while i < self.inner.len()
            invariant
                i <= self.inner@.len(),
                out@ + body_lines(self.inner@.skip(i as int)) == version_line() + body_lines(
                    self.inner@,
                ),
            decreases self.inner@.len() - i,
        {
            let entry = &self.inner[i];
            let name_chars = chars_of(entry.name.as_str());
            let name = trimmed(name_chars.as_slice());
            let ghost at_entry = out@;
            let mut j: usize = 0;
            assert(entry.values@.skip(0) =~= entry.values@);
            while j < entry.values.len()
                invariant
                    j <= entry.values@.len(),
                    name@ == trim(entry.name@),
                    out@ + entry_lines(entry.name@, entry.values@.skip(j as int)) == at_entry
                        + entry_lines(entry.name@, entry.values@),
                decreases entry.values@.len() - j,
            {
                let value_chars = chars_of(entry.values[j].as_str());
                let value = trimmed(value_chars.as_slice());
                let ghost was = out@;
                push_all(&mut out, name);
                push_char(&mut out, ':');
                push_all(&mut out, value);
                push_char(&mut out, '\r');
                push_char(&mut out, '\n');
                proof {
                    let here = entry.values@.skip(j as int);
                    let line = header_line(entry.name@, entry.values@[j as int]@);
                    assert(here[0] == entry.values@[j as int]);
                    assert(here.skip(1) =~= entry.values@.skip(j + 1));
                    assert(out@ =~= was + line);
                    assert(was + line + entry_lines(entry.name@, here.skip(1)) =~= was + (line
                        + entry_lines(entry.name@, here.skip(1))));
                }
                j += 1;
            }
            proof {
                let here = self.inner@.skip(i as int);
                assert(here[0] == self.inner@[i as int]);
                assert(here.skip(1) =~= self.inner@.skip(i + 1));
                let lines = entry_lines(entry.name@, entry.values@);
                assert(out@ =~= at_entry + lines);
                assert(at_entry + lines + body_lines(here.skip(1)) =~= at_entry + (lines
                    + body_lines(here.skip(1))));
            }
            i += 1;
        }
        push_char(&mut out, '\r');
        push_char(&mut out, '\n');
        proof {
            assert(out@ =~= wire_text(self.inner@));
        }
        out.as_str().as_bytes_vec()
    }
}

} // verus!
