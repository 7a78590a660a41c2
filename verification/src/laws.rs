//! What holds of every header block, and of every collection of pairs.

use crate::codec::{
    first_line, parse_block, parse_bytes, parse_rest, version_prefix, HeaderError,
};
use crate::headers::pairs_map;
use crate::text::{lemma_position, position, trim};
use vstd::prelude::*;
use vstd::utf8::*;

verus! {

/// Input of no bytes is refused for want of a header block.
pub proof fn lemma_empty_input_is_refused()
    ensures
        parse_bytes(Seq::<u8>::empty()) == Err::<Map<Seq<char>, Set<Seq<char>>>, HeaderError>(
            HeaderError::MissingHeaderBlock,
        ),
{
    let b = Seq::<u8>::empty();
    assert(valid_utf8(b));
    assert(decode_utf8(b).len() == 0);
}

/// Text that does not begin with the version prefix is refused for its
/// version line, whatever follows.
pub proof fn lemma_bad_version_line_is_refused(t: Seq<char>)
    requires
        t.len() > 0,
        !version_prefix().is_prefix_of(t),
    ensures
        parse_block(t) == Err::<Map<Seq<char>, Set<Seq<char>>>, HeaderError>(
            HeaderError::MalformedVersionLine,
        ),
{
    let p = version_prefix();
    let line = first_line(t);
    lemma_position(t, '\n');
    if p.is_prefix_of(line) {
        assert(line.len() <= t.len());
        assert forall|j: int| 0 <= j < line.len() implies line[j] == t[j] by {}
        assert(p =~= t.subrange(0, p.len() as int));
        assert(p.is_prefix_of(t));
    }
}

/// A line that holds no colon, and more than whitespace, is refused, whatever
/// was read before it and whatever follows.
pub proof fn lemma_line_without_colon_is_refused(
    rest: Seq<char>,
    acc: Map<Seq<char>, Set<Seq<char>>>,
)
    requires
        rest.len() > 0,
        position(first_line(rest), ':') == first_line(rest).len(),
        trim(first_line(rest)).len() > 0,
    ensures
        parse_rest(rest, acc) == Err::<Map<Seq<char>, Set<Seq<char>>>, HeaderError>(
            HeaderError::MalformedHeaderLine,
        ),
{
}

/// Whether `pairs` holds the pair of `name` and `value`.
pub open spec fn has_pair(pairs: Seq<(String, String)>, name: Seq<char>, value: Seq<char>) -> bool {
    exists|i: int| 0 <= i < pairs.len() && (#[trigger] pairs[i]).0@ == name && pairs[i].1@ == value
}

/// The map of a sequence of pairs holds a value under a name exactly where
/// the sequence holds that pair.
pub proof fn lemma_pairs_map_holds_the_pairs(
    pairs: Seq<(String, String)>,
    name: Seq<char>,
    value: Seq<char>,
)
    ensures
        pairs_map(pairs).contains_key(name) && pairs_map(pairs)[name].contains(value) <==> has_pair(
            pairs,
            name,
            value,
        ),
        pairs_map(pairs).contains_key(name) <==> exists|i: int|
            0 <= i < pairs.len() && (#[trigger] pairs[i]).0@ == name,
    decreases pairs.len(),
{
    if pairs.len() > 0 {
        let before = pairs.drop_last();
        let last = pairs.last();
        lemma_pairs_map_holds_the_pairs(before, name, value);
        if has_pair(pairs, name, value) {
            let i = choose|i: int|
                0 <= i < pairs.len() && (#[trigger] pairs[i]).0@ == name && pairs[i].1@ == value;
            if i < before.len() {
                assert(before[i] == pairs[i]);
            }
        }
        if has_pair(before, name, value) {
            let i = choose|i: int|
                0 <= i < before.len() && (#[trigger] before[i]).0@ == name && before[i].1@
                    == value;
            assert(pairs[i] == before[i]);
        }
        if last.0@ == name && last.1@ == value {
            assert(pairs[pairs.len() - 1] == last);
        }
        if exists|i: int| 0 <= i < pairs.len() && (#[trigger] pairs[i]).0@ == name {
            let i = choose|i: int| 0 <= i < pairs.len() && (#[trigger] pairs[i]).0@ == name;
            if i < before.len() {
                assert(before[i] == pairs[i]);
            }
        }
        if exists|i: int| 0 <= i < before.len() && (#[trigger] before[i]).0@ == name {
            let i = choose|i: int| 0 <= i < before.len() && (#[trigger] before[i]).0@ == name;
            assert(pairs[i] == before[i]);
        }
        if last.0@ == name {
            assert(pairs[pairs.len() - 1] == last);
        }
    }
}

} // verus!
