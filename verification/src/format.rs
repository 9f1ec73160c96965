//! The backing file's format: one record per line, each the key, one tab, the
//! value, and a newline. Nothing is escaped.
//!
//! Reading splits the text at newlines. An empty line is skipped. Every other
//! line must hold exactly one tab, which parts the key from the value; a line
//! with no tab, or with more than one, makes the whole text corrupt.

use crate::entries::{
    as_map, distinct_keys, has_key, key_index, lemma_drop_last_distinct, lemma_put_as_map,
    lemma_put_distinct, put, Pair,
};
use crate::text::{find_char, first_index, lemma_first_index, lemma_first_index_is, string_of};
use vstd::prelude::*;

verus! {

/// Parts the key from the value inside a record.
pub const TAB: char = '\t';

/// Ends a record.
pub const NEWLINE: char = '\n';

/// The record of one pair.
pub open spec fn record(key: Seq<char>, value: Seq<char>) -> Seq<char> {
    key + seq![TAB] + value + seq![NEWLINE]
}

/// The text of the backing file for `entries`: their records, in order.
pub open spec fn serialize(entries: Seq<Pair>) -> Seq<char>
    decreases entries.len(),
{
    if entries.len() == 0 {
        Seq::empty()
    } else {
        serialize(entries.drop_last()) + record(entries.last().0, entries.last().1)
    }
}

/// The lines of `text`: the pieces between newlines. A newline at the very
/// end opens no further line, so the empty text has no line at all.
pub open spec fn lines(text: Seq<char>) -> Seq<Seq<char>>
    decreases text.len(),
{
    if text.len() == 0 {
        Seq::empty()
    } else {
        let n = first_index(text, NEWLINE);
        if 0 <= n < text.len() {
            seq![text.take(n)] + lines(text.skip(n + 1))
        } else {
            seq![text]
        }
    }
}

/// The pair that a line stands for, if it holds exactly one tab: what is
/// before the tab is the key, what is after it the value.
pub open spec fn parse_line(line: Seq<char>) -> Option<Pair> {
    let tab = first_index(line, TAB);
    if tab < line.len() && !line.skip(tab + 1).contains(TAB) {
        Some((line.take(tab), line.skip(tab + 1)))
    } else {
        None
    }
}

/// A line that is neither empty nor a record.
pub open spec fn is_corrupt(line: Seq<char>) -> bool {
    line.len() > 0 && parse_line(line) is None
}

/// The pairs of the lines that are records, in order.
pub open spec fn records(lines: Seq<Seq<char>>) -> Seq<Pair>
    decreases lines.len(),
{
    if lines.len() == 0 {
        Seq::empty()
    } else {
        match parse_line(lines.last()) {
            Some(pair) => records(lines.drop_last()).push(pair),
            None => records(lines.drop_last()),
        }
    }
}

/// The entries of a store that started empty and had each pair set in turn.
pub open spec fn load(pairs: Seq<Pair>) -> Seq<Pair>
    decreases pairs.len(),
{
    if pairs.len() == 0 {
        Seq::empty()
    } else {
        put(load(pairs.drop_last()), pairs.last().0, pairs.last().1)
    }
}

/// The entries that a backing file's text stands for, or `None` where one of
/// its lines is corrupt.
pub open spec fn parse(text: Seq<char>) -> Option<Seq<Pair>> {
    let all = lines(text);
    if exists|i: int| 0 <= i < all.len() && is_corrupt(#[trigger] all[i]) {
        None
    } else {
        Some(load(records(all)))
    }
}

/// A text that can stand in a record as it is: it holds no tab and no
/// newline.
pub open spec fn is_field(text: Seq<char>) -> bool {
    !text.contains(TAB) && !text.contains(NEWLINE)
}

/// Neither the keys nor the values hold a tab or a newline.
pub open spec fn separator_free(entries: Seq<Pair>) -> bool {
    forall|i: int|
        0 <= i < entries.len() ==> is_field((#[trigger] entries[i]).0) && is_field(entries[i].1)
}

/// The pair that the line `text[start..end]` stands for, if it is a record.
pub fn read_line(text: &Vec<char>, start: usize, end: usize) -> (pair: Option<(String, String)>)
    requires
        start <= end <= text.len(),
    ensures
        pair.deep_view() == parse_line(text@.subrange(start as int, end as int)),
{
    let ghost line = text@.subrange(start as int, end as int);
    let tab = find_char(text, start, end, TAB);
    proof {
        lemma_first_index(line, TAB);
    }
    if tab == end {
        return None;
    }
    let other = find_char(text, tab + 1, end, TAB);
    proof {
        let after = text@.subrange(tab + 1, end as int);
        assert(line.skip(tab - start + 1) == after);
        lemma_first_index(after, TAB);
    }
    if other < end {
        return None;
    }
    let key = string_of(text, start, tab);
    let value = string_of(text, tab + 1, end);
    proof {
        assert(line.take(tab - start) == key@);
    }
    Some((key, value))
}

/// Round trip: a store whose keys and values hold no tab and no newline is
/// read back from its own serialized text exactly as it was, pair by pair
/// and in the same order, and so as the same map.
pub proof fn lemma_round_trip(entries: Seq<Pair>)
    requires
        distinct_keys(entries),
        separator_free(entries),
    ensures
        parse(serialize(entries)) == Some(entries),
        as_map(parse(serialize(entries))->0) == as_map(entries),
{
    lemma_lines_of_serialize(entries);
    lemma_records_of_lines(entries, lines(serialize(entries)));
    lemma_load_of_distinct(entries);
}

/// Writing is repeatable: a store that is written, read back and written
/// again gives the same text both times.
pub proof fn lemma_serialize_again(entries: Seq<Pair>)
    requires
        distinct_keys(entries),
        separator_free(entries),
    ensures
        parse(serialize(entries)) is Some,
        serialize(parse(serialize(entries))->0) == serialize(entries),
{
    lemma_round_trip(entries);
}

/// What was read from a text holds no tab and no newline in a key or a
/// value, and no key twice.
pub proof fn lemma_parse_is_separator_free(text: Seq<char>)
    requires
        parse(text) is Some,
    ensures
        separator_free(parse(text)->0),
        distinct_keys(parse(text)->0),
{
    let all = lines(text);
    assert forall|i: int| 0 <= i < all.len() implies !(#[trigger] all[i]).contains(NEWLINE) by {
        lemma_lines_hold_no_newline(text, i);
    }
    lemma_records_are_separator_free(all);
    lemma_load_is_separator_free(records(all));
    lemma_load_distinct(records(all));
}

/// The round trip holds of no other store: one that is read back from its
/// own text as it was holds no tab and no newline in a key or a value.
pub proof fn lemma_round_trip_only_if_separator_free(entries: Seq<Pair>)
    requires
        parse(serialize(entries)) == Some(entries),
    ensures
        separator_free(entries),
        distinct_keys(entries),
{
    lemma_parse_is_separator_free(serialize(entries));
}

/// Loading is last-write-wins: the map of what was loaded is the map of the
/// pairs themselves, in which a later pair overrides an earlier one with the
/// same key.
pub proof fn lemma_load_as_map(pairs: Seq<Pair>)
    ensures
        as_map(load(pairs)) == as_map(pairs),
    decreases pairs.len(),
{
    if pairs.len() > 0 {
        let front = pairs.drop_last();
        lemma_load_as_map(front);
        lemma_load_distinct(front);
        lemma_put_as_map(load(front), pairs.last().0, pairs.last().1);
    }
}

/// A text with a line that is not empty and holds no tab is corrupt.
pub proof fn lemma_line_without_tab_is_corrupt(text: Seq<char>, i: int)
    requires
        0 <= i < lines(text).len(),
        lines(text)[i].len() > 0,
        !lines(text)[i].contains(TAB),
    ensures
        parse(text) is None,
{
    let line = lines(text)[i];
    lemma_first_index(line, TAB);
    assert(is_corrupt(line));
}

/// The empty text stands for the empty store.
pub proof fn lemma_parse_empty()
    ensures
        parse(Seq::empty()) == Some(Seq::<Pair>::empty()),
{
    assert(lines(Seq::<char>::empty()).len() == 0);
}

/// The first line of a text that is not empty ends at its first newline, or
/// at the end of the text where it holds none, and the other lines are those
/// of what follows.
pub proof fn lemma_lines_step(text: Seq<char>)
    requires
        text.len() > 0,
    ensures
        ({
            let n = first_index(text, NEWLINE);
            let next = if n < text.len() {
                n + 1
            } else {
                n
            };
            &&& 0 <= n <= text.len()
            &&& lines(text) == seq![text.take(n)] + lines(text.skip(next))
        }),
{
    let n = first_index(text, NEWLINE);
    lemma_first_index(text, NEWLINE);
    if n == text.len() {
        assert(text.take(n) == text);
        assert(text.skip(n).len() == 0);
        assert(lines(text.skip(n)) == Seq::<Seq<char>>::empty());
        assert(seq![text] + Seq::<Seq<char>>::empty() == seq![text]);
    }
}

/// After a text that is empty or ends in a newline, the lines of what follows
/// come after its own.
pub proof fn lemma_lines_concat(a: Seq<char>, b: Seq<char>)
    requires
        a.len() == 0 || a.last() == NEWLINE,
    ensures
        lines(a + b) == lines(a) + lines(b),
    decreases a.len(),
{
    if a.len() == 0 {
        assert(a + b == b);
        assert(lines(a) + lines(b) == lines(b));
    } else {
        let n = first_index(a, NEWLINE);
        lemma_first_index(a, NEWLINE);
        assert(n < a.len());
        assert forall|j: int| 0 <= j < n implies (a + b)[j] != NEWLINE by {
            assert((a + b)[j] == a[j]);
        }
        lemma_first_index_is(a + b, NEWLINE, n);
        let rest = a.skip(n + 1);
        assert((a + b).take(n) == a.take(n));
        assert((a + b).skip(n + 1) == rest + b);
        if rest.len() > 0 {
            assert(rest.last() == a.last());
        }
        lemma_lines_concat(rest, b);
        assert(lines(a + b) == seq![a.take(n)] + (lines(rest) + lines(b)));
        assert(lines(a) == seq![a.take(n)] + lines(rest));
        assert(seq![a.take(n)] + (lines(rest) + lines(b)) == (seq![a.take(n)] + lines(rest))
            + lines(b));
    }
}

/// A line without a newline, followed by one, is read back as that one line.
pub proof fn lemma_lines_of_one(line: Seq<char>)
    requires
        !line.contains(NEWLINE),
    ensures
        lines(line + seq![NEWLINE]) == seq![line],
{
    let text = line + seq![NEWLINE];
    let n = line.len() as int;
    assert forall|j: int| 0 <= j < n implies text[j] != NEWLINE by {
        assert(text[j] == line[j]);
        assert(line.contains(line[j]));
    }
    lemma_first_index_is(text, NEWLINE, n);
    assert(text.take(n) == line);
    assert(text.skip(n + 1).len() == 0);
    assert(lines(text.skip(n + 1)) == Seq::<Seq<char>>::empty());
    assert(seq![line] + Seq::<Seq<char>>::empty() == seq![line]);
}

/// No line holds a newline.
pub proof fn lemma_lines_hold_no_newline(text: Seq<char>, i: int)
    requires
        0 <= i < lines(text).len(),
    ensures
        !lines(text)[i].contains(NEWLINE),
    decreases text.len(),
{
    let n = first_index(text, NEWLINE);
    lemma_first_index(text, NEWLINE);
    if i == 0 {
        let line = lines(text)[0];
        assert(line == text.take(n));
        if line.contains(NEWLINE) {
            let j = choose|j: int| 0 <= j < line.len() && line[j] == NEWLINE;
            assert(text[j] == NEWLINE);
        }
    } else {
        let rest = text.skip(n + 1);
        assert(lines(text)[i] == lines(rest)[i - 1]);
        lemma_lines_hold_no_newline(rest, i - 1);
    }
}

/// A key and a value without a tab, joined by one, are read back as they
/// were.
pub proof fn lemma_parse_line_of_pair(key: Seq<char>, value: Seq<char>)
    requires
        !key.contains(TAB),
        !value.contains(TAB),
    ensures
        parse_line(key + seq![TAB] + value) == Some((key, value)),
{
    let line = key + seq![TAB] + value;
    let n = key.len() as int;
    assert forall|j: int| 0 <= j < n implies line[j] != TAB by {
        assert(line[j] == key[j]);
        assert(key.contains(key[j]));
    }
    assert(line[n] == TAB);
    lemma_first_index_is(line, TAB, n);
    assert(line.take(n) == key);
    assert(line.skip(n + 1) == value);
}

/// The key and the value of a record that holds no newline hold no separator.
pub proof fn lemma_parse_line_gives_fields(line: Seq<char>)
    requires
        !line.contains(NEWLINE),
        parse_line(line) is Some,
    ensures
        parse_line(line) matches Some(pair) && is_field(pair.0) && is_field(pair.1),
{
    let tab = first_index(line, TAB);
    lemma_first_index(line, TAB);
    let key = line.take(tab);
    let value = line.skip(tab + 1);
    if key.contains(TAB) || key.contains(NEWLINE) {
        let j = choose|j: int| 0 <= j < key.len() && (key[j] == TAB || key[j] == NEWLINE);
        assert(line[j] == key[j]);
        assert(line.contains(line[j]));
    }
    if value.contains(NEWLINE) {
        let j = choose|j: int| 0 <= j < value.len() && value[j] == NEWLINE;
        assert(line[tab + 1 + j] == value[j]);
        assert(line.contains(line[tab + 1 + j]));
    }
}

/// Setting each of a sequence of pairs with distinct keys, starting from
/// nothing, gives that sequence.
pub proof fn lemma_load_of_distinct(entries: Seq<Pair>)
    requires
        distinct_keys(entries),
    ensures
        load(entries) == entries,
    decreases entries.len(),
{
    if entries.len() > 0 {
        let front = entries.drop_last();
        let last = entries.last();
        lemma_drop_last_distinct(entries);
        lemma_load_of_distinct(front);
        if has_key(front, last.0) {
            let i = key_index(front, last.0);
            assert(front[i] == entries[i]);
            assert(entries[i].0 != entries[entries.len() - 1].0);
        }
        assert(front.push(last) == entries);
    }
}

/// Whatever was loaded has distinct keys.
pub proof fn lemma_load_distinct(pairs: Seq<Pair>)
    ensures
        distinct_keys(load(pairs)),
    decreases pairs.len(),
{
    if pairs.len() > 0 {
        lemma_load_distinct(pairs.drop_last());
        lemma_put_distinct(load(pairs.drop_last()), pairs.last().0, pairs.last().1);
    }
}

/// Without its last pair, a sequence without separators is still without
/// separators.
proof fn lemma_drop_last_separator_free(entries: Seq<Pair>)
    requires
        separator_free(entries),
        entries.len() > 0,
    ensures
        separator_free(entries.drop_last()),
{
    let front = entries.drop_last();
    assert forall|i: int| 0 <= i < front.len() implies is_field((#[trigger] front[i]).0)
        && is_field(front[i].1) by {
        assert(front[i] == entries[i]);
    }
}

/// Loading pairs without separators gives a store without separators.
pub proof fn lemma_load_is_separator_free(pairs: Seq<Pair>)
    requires
        separator_free(pairs),
    ensures
        separator_free(load(pairs)),
    decreases pairs.len(),
{
    if pairs.len() > 0 {
        let front = pairs.drop_last();
        let last = pairs[pairs.len() - 1];
        lemma_drop_last_separator_free(pairs);
        lemma_load_is_separator_free(front);
        let before = load(front);
        let after = put(before, last.0, last.1);
        assert forall|i: int| 0 <= i < after.len() implies is_field((#[trigger] after[i]).0)
            && is_field(after[i].1) by {
            if after[i] != last {
                assert(after[i] == before[i]);
            }
        }
    }
}

/// The records among lines without a newline hold no separator in a key or a
/// value.
pub proof fn lemma_records_are_separator_free(all: Seq<Seq<char>>)
    requires
        forall|i: int| 0 <= i < all.len() ==> !(#[trigger] all[i]).contains(NEWLINE),
    ensures
        separator_free(records(all)),
    decreases all.len(),
{
    if all.len() > 0 {
        let front = all.drop_last();
        assert forall|i: int| 0 <= i < front.len() implies !(#[trigger] front[i]).contains(
            NEWLINE,
        ) by {
            assert(front[i] == all[i]);
        }
        lemma_records_are_separator_free(front);
        let line = all[all.len() - 1];
        if parse_line(line) is Some {
            lemma_parse_line_gives_fields(line);
            let pairs = records(front);
            let pair = parse_line(line)->0;
            let longer = pairs.push(pair);
            assert forall|i: int| 0 <= i < longer.len() implies is_field((#[trigger] longer[i]).0)
                && is_field(longer[i].1) by {
                if i < pairs.len() {
                    assert(longer[i] == pairs[i]);
                }
            }
        }
    }
}

/// The lines of a serialized store are its pairs, each as key, tab, value.
proof fn lemma_lines_of_serialize(entries: Seq<Pair>)
    requires
        separator_free(entries),
    ensures
        lines(serialize(entries)).len() == entries.len(),
        forall|i: int|
            0 <= i < entries.len() ==> #[trigger] lines(serialize(entries))[i] == entries[i].0
                + seq![TAB] + entries[i].1,
        serialize(entries).len() == 0 || serialize(entries).last() == NEWLINE,
    decreases entries.len(),
{
    if entries.len() > 0 {
        let front = entries.drop_last();
        let last = entries.last();
        lemma_drop_last_separator_free(entries);
        lemma_lines_of_serialize(front);
        let line = last.0 + seq![TAB] + last.1;
        assert(entries[entries.len() - 1] == last);
        assert(!line.contains(NEWLINE)) by {
            if line.contains(NEWLINE) {
                let j = choose|j: int| 0 <= j < line.len() && line[j] == NEWLINE;
                if j < last.0.len() {
                    assert(last.0[j] == NEWLINE);
                    assert(last.0.contains(NEWLINE));
                } else if j > last.0.len() {
                    assert(last.1[j - last.0.len() - 1] == NEWLINE);
                    assert(last.1.contains(NEWLINE));
                }
            }
        }
        lemma_lines_of_one(line);
        assert(record(last.0, last.1) == line + seq![NEWLINE]);
        lemma_lines_concat(serialize(front), record(last.0, last.1));
    }
}

/// The records among the lines of a serialized store are its pairs, and none
/// of the lines is corrupt.
proof fn lemma_records_of_lines(entries: Seq<Pair>, all: Seq<Seq<char>>)
    requires
        separator_free(entries),
        all.len() == entries.len(),
        forall|i: int|
            0 <= i < entries.len() ==> #[trigger] all[i] == entries[i].0 + seq![TAB] + entries[i].1,
    ensures
        records(all) == entries,
        forall|i: int| 0 <= i < all.len() ==> !is_corrupt(#[trigger] all[i]),
    decreases all.len(),
{
    assert forall|i: int| 0 <= i < all.len() implies parse_line(#[trigger] all[i]) == Some(
        entries[i],
    ) by {
        let pair = entries[i];
        lemma_parse_line_of_pair(pair.0, pair.1);
    }
    if all.len() > 0 {
        let front = entries.drop_last();
        lemma_drop_last_separator_free(entries);
        assert forall|i: int| 0 <= i < front.len() implies #[trigger] all.drop_last()[i]
            == front[i].0 + seq![TAB] + front[i].1 by {
            assert(all.drop_last()[i] == all[i]);
            assert(front[i] == entries[i]);
        }
        lemma_records_of_lines(front, all.drop_last());
        assert(all.last() == all[all.len() - 1]);
        assert(front.push(entries.last()) == entries);
    }
}

} // verus!
