//! The listing of a store's keys. A key that begins with a dot is secret: it
//! is left out of the listing and is otherwise a key like any other.

use crate::entries::Pair;
use crate::format::NEWLINE;
use vstd::prelude::*;

verus! {

/// The first character of a secret key.
pub const SECRET_MARK: char = '.';

/// Whether `key` is secret: its first character is a dot.
pub open spec fn is_secret(key: Seq<char>) -> bool {
    key.len() > 0 && key[0] == SECRET_MARK
}

/// The keys that are not secret, in order, each followed by a newline.
pub open spec fn visible_lines(entries: Seq<Pair>) -> Seq<char>
    decreases entries.len(),
{
    if entries.len() == 0 {
        Seq::empty()
    } else if is_secret(entries.last().0) {
        visible_lines(entries.drop_last())
    } else {
        visible_lines(entries.drop_last()) + entries.last().0 + seq![NEWLINE]
    }
}

/// `text` without the newlines at its end.
pub open spec fn trim_newlines(text: Seq<char>) -> Seq<char>
    decreases text.len(),
{
    if text.len() > 0 && text.last() == NEWLINE {
        trim_newlines(text.drop_last())
    } else {
        text
    }
}

/// The listing of `entries`: the keys that are not secret, one per line and
/// without the newlines at the end; `None` where every key is secret.
pub open spec fn listing(entries: Seq<Pair>) -> Option<Seq<char>> {
    let all = visible_lines(entries);
    if all.len() == 0 {
        None
    } else {
        Some(trim_newlines(all))
    }
}

/// There is no listing exactly when every key is secret.
pub proof fn lemma_listing_none(entries: Seq<Pair>)
    ensures
        listing(entries) is None <==> forall|i: int|
            0 <= i < entries.len() ==> is_secret((#[trigger] entries[i]).0),
    decreases entries.len(),
{
    if entries.len() > 0 {
        let front = entries.drop_last();
        lemma_listing_none(front);
        assert forall|i: int| 0 <= i < front.len() implies front[i] == entries[i] by {}
        if listing(entries) is None {
            assert(is_secret(entries[entries.len() - 1].0));
            assert forall|i: int| 0 <= i < entries.len() implies is_secret(
                (#[trigger] entries[i]).0,
            ) by {
                if i < front.len() {
                    assert(front[i] == entries[i]);
                }
            }
        } else if is_secret(entries.last().0) {
            let i = choose|i: int| 0 <= i < front.len() && !is_secret((#[trigger] front[i]).0);
            assert(front[i] == entries[i]);
        } else {
            assert(!is_secret(entries[entries.len() - 1].0));
        }
    }
}

/// The part of `text` before the newlines at its end is what
/// `trim_newlines` gives.
pub proof fn lemma_trim_newlines_is(text: Seq<char>, n: int)
    requires
        0 <= n <= text.len(),
        n > 0 ==> text[n - 1] != NEWLINE,
        forall|j: int| n <= j < text.len() ==> text[j] == NEWLINE,
    ensures
        trim_newlines(text) == text.take(n),
    decreases text.len(),
{
    if n < text.len() {
        let front = text.drop_last();
        lemma_trim_newlines_is(front, n);
        assert(front.take(n) == text.take(n));
    } else {
        assert(text.take(n) == text);
    }
}

} // verus!
