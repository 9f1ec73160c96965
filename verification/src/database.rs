//! The store: text keys and values in memory, loaded from the text of a
//! backing file and serialized back to it.

use crate::entries::{
    as_map, delete, distinct_keys, has_key, key_index, lemma_as_map_domain, lemma_as_map_value,
    lemma_delete_as_map, lemma_delete_distinct, lemma_key_index, lemma_put_as_map,
    lemma_put_distinct, put, Pair,
};
use crate::format::{
    is_corrupt, lemma_lines_step, lines, load, parse, parse_line, read_line, record, records,
    serialize, NEWLINE, TAB,
};
use crate::listing::{is_secret, lemma_trim_newlines_is, listing, visible_lines, SECRET_MARK};
use crate::text::{chars_of, find_char, string_of};
use vstd::prelude::*;
use vstd::string::{StrSliceExecFns, StringExecFns};

verus! {

/// Why the text of a backing file could not be loaded.
#[derive(Debug, Clone, Copy, PartialEq, Eq)]
pub enum LoadError {
    /// A line that is not empty does not hold exactly one tab.
    Corruption,
}

/// A store of text keys and values.
///
/// No key occurs twice. The pairs keep the order in which their keys first
/// came in; that order is the order of the records in the serialized text
/// and of the keys in the listing.
#[derive(Debug)]
pub struct Database {
    items: Vec<(String, String)>,
}

/// A store that was opened, and what is left to do for its backing file.
#[derive(Debug)]
pub struct Opened {
    /// The store.
    pub database: Database,
    /// The backing file did not exist: an empty one is to be created.
    pub create_file: bool,
}

/// What `get_help_txt` returns.
pub const HELP_TEXT: &'static str =
    "A key value store written in Rust.\nCOMMANDS:\n\tadd <KEY> <VALUE>\tAdd a key value pair to the database\n\tget <KEY>\t\tAccess the corresponding value of <KEY>\n\thelp\t\t\tList all commands and their uses\n\tlist\t\t\tList all keys stored in the database\n\tremove <KEY>\t\tRemove a key value pair from the database\n\nSECRET KEYS:\nAdding a key prefixed by a dot will make it a secret key! It won't be listed though the list command, but you will be able to access its value normally.\n";

impl View for Database {
    type V = Map<Seq<char>, Seq<char>>;

    /// The store as a map from keys to values.
    open spec fn view(&self) -> Map<Seq<char>, Seq<char>> {
        as_map(self.entries())
    }
}

impl Database {
    /// The pairs of the store, in order.
    pub closed spec fn entries(&self) -> Seq<Pair> {
        self.items.deep_view()
    }

    #[verifier::type_invariant]
    spec fn keys_are_distinct(&self) -> bool {
        distinct_keys(self.items.deep_view())
    }

    /// The empty store.
    pub fn new() -> (db: Database)
        ensures
            db.entries() == Seq::<Pair>::empty(),
            db@ == Map::<Seq<char>, Seq<char>>::empty(),
    {
        let db = Database { items: Vec::new() };
        assert(db.items.deep_view() == Seq::<Pair>::empty());
        db
    }

    /// The position of `key` among the pairs, or their number where the
    /// store does not hold it.
    fn position(&self, key: &String) -> (at: usize)
        ensures
            distinct_keys(self.entries()),
            at <= self.items.len(),
            at < self.items.len() <==> has_key(self.entries(), key@),
            at < self.items.len() ==> key_index(self.entries(), key@) == at,
    {
        proof {
            use_type_invariant(self);
        }
        let mut at: usize = 0;
        while at < self.items.len() && self.items[at].0 != *key
            invariant
                at <= self.items.len(),
                forall|j: int| 0 <= j < at ==> self.items[j].0@ != key@,
            decreases self.items.len() - at,
        {
            at = at + 1;
        }
        proof {
            let entries = self.entries();
            assert forall|j: int| 0 <= j < entries.len() implies entries[j] == (
                self.items[j].0@,
                self.items[j].1@,
            ) by {}
            if at < self.items.len() {
                assert(entries[at as int].0 == key@);
                lemma_key_index(entries, at as int);
            } else if has_key(entries, key@) {
                let j = key_index(entries, key@);
                assert(self.items[j].0@ == key@);
            }
        }
        at
    }

    /// Sets `key` to `value`, whatever it held before.
    ///
    /// Neither is looked into: a key or a value with a tab or a newline in
    /// it is kept and written out as it is, and the text that `serialize`
    /// then gives does not load back as this store.
    pub fn insert(&mut self, key: String, value: String)
        ensures
            final(self).entries() == put(old(self).entries(), key@, value@),
            final(self)@ == old(self)@.insert(key@, value@),
    {
        let at = self.position(&key);
        proof {
            lemma_put_distinct(self.entries(), key@, value@);
            lemma_put_as_map(self.entries(), key@, value@);
        }
        let mut items: Vec<(String, String)> = Vec::new();
        std::mem::swap(&mut items, &mut self.items);
        if at < items.len() {
            items.set(at, (key, value));
            assert(items.deep_view() == old(self).items.deep_view().update(
                at as int,
                (key@, value@),
            ));
        } else {
            items.push((key, value));
            assert(items.deep_view() == old(self).items.deep_view().push((key@, value@)));
        }
        self.items = items;
    }

    /// The value of `key`, or `None` where the store does not hold it.
    pub fn get(&self, key: String) -> (found: Option<&String>)
        ensures
            match found {
                Some(value) => self@.contains_key(key@) && value@ == self@[key@],
                None => !self@.contains_key(key@),
            },
    {
        let at = self.position(&key);
        proof {
            lemma_as_map_domain(self.entries(), key@);
        }
        if at < self.items.len() {
            proof {
                lemma_as_map_value(self.entries(), at as int);
            }
            Some(&self.items[at].1)
        } else {
            None
        }
    }

    /// Takes `key` out of the store and returns the value it had, or `None`
    /// where the store does not hold it; the store is then left as it was.
    pub fn remove(&mut self, key: String) -> (removed: Option<String>)
        ensures
            final(self).entries() == delete(old(self).entries(), key@),
            final(self)@ == old(self)@.remove(key@),
            match removed {
                Some(value) => old(self)@.contains_key(key@) && value@ == old(self)@[key@],
                None => !old(self)@.contains_key(key@) && final(self).entries() == old(
                    self,
                ).entries(),
            },
    {
        let at = self.position(&key);
        proof {
            lemma_as_map_domain(self.entries(), key@);
            lemma_delete_distinct(self.entries(), key@);
            lemma_delete_as_map(self.entries(), key@);
        }
        if at < self.items.len() {
            proof {
                lemma_as_map_value(self.entries(), at as int);
            }
            let mut items: Vec<(String, String)> = Vec::new();
            std::mem::swap(&mut items, &mut self.items);
            let pair = items.remove(at);
            assert(items.deep_view() == old(self).items.deep_view().remove(at as int));
            self.items = items;
            Some(pair.1)
        } else {
            None
        }
    }

    /// Loads a store from the text of a backing file: each line that is a
    /// record sets its key to its value, in order. One corrupt line fails the
    /// whole load.
    pub fn from_text(contents: &str) -> (loaded: Result<Database, LoadError>)
        ensures
            match parse(contents@) {
                Some(entries) => loaded matches Ok(db) && db.entries() == entries,
                None => loaded == Err::<Database, LoadError>(LoadError::Corruption),
            },
    {
        let text = chars_of(contents);
        let mut db = Database::new();
        let mut start: usize = 0;
        let ghost mut done: Seq<Seq<char>> = Seq::empty();
        proof {
            assert(text@.skip(0) == text@);
            assert(done + lines(text@) == lines(text@));
        }
        while start < text.len()
            invariant
                start <= text.len(),
                text@ == contents@,
                lines(text@) == done + lines(text@.skip(start as int)),
                forall|i: int| 0 <= i < done.len() ==> !is_corrupt(#[trigger] done[i]),
                db.entries() == load(records(done)),
            decreases text.len() - start,
        {
            let end = find_char(&text, start, text.len(), NEWLINE);
            let ghost rest = text@.skip(start as int);
            let ghost line = text@.subrange(start as int, end as int);
            let next = if end < text.len() {
                end + 1
            } else {
                end
            };
            proof {
                assert(rest == text@.subrange(start as int, text.len() as int));
                lemma_lines_step(rest);
                assert(rest.take(end - start) == line);
                assert(rest.skip(next - start) == text@.skip(next as int));
                assert(done + (seq![line] + lines(text@.skip(next as int))) == done.push(line)
                    + lines(text@.skip(next as int)));
                assert(done.push(line).drop_last() == done);
                assert(lines(text@)[done.len() as int] == line);
            }
            if start < end {
                match read_line(&text, start, end) {
                    Some((key, value)) => {
                        db.insert(key, value);
                    },
                    None => {
                        proof {
                            assert(is_corrupt(line));
                        }
                        return Err(LoadError::Corruption);
                    },
                }
            }
            proof {
                let pairs = records(done);
                assert(done.push(line).last() == line);
                if start < end {
                    let pair = parse_line(line)->0;
                    assert(records(done.push(line)) == pairs.push(pair));
                    assert(pairs.push(pair).drop_last() == pairs);
                    assert(pairs.push(pair).last() == pair);
                } else {
                    assert(line.len() == 0);
                    assert(parse_line(line) is None);
                    assert(records(done.push(line)) == pairs);
                }
                done = done.push(line);
            }
            start = next;
        }
        proof {
            assert(text@.skip(start as int).len() == 0);
            assert(done + lines(text@.skip(start as int)) == done);
        }
        Ok(db)
    }

    /// Opens a store on what was found at the path of its backing file: the
    /// file's text, or `None` where there was no file. Without a file the
    /// store is empty and an empty file is to be created; with one, the store
    /// is loaded from its text.
    pub fn open(found: Option<&str>) -> (opened: Result<Opened, LoadError>)
        ensures
            match found {
                None => opened matches Ok(o) && o.create_file && o.database.entries() == Seq::<
                    Pair,
                >::empty(),
                Some(contents) => match parse(contents@) {
                    Some(entries) => opened matches Ok(o) && !o.create_file
                        && o.database.entries() == entries,
                    None => opened == Err::<Opened, LoadError>(LoadError::Corruption),
                },
            },
    {
        match found {
            None => Ok(Opened { database: Database::new(), create_file: true }),
            Some(contents) => match Database::from_text(contents) {
                Ok(database) => Ok(Opened { database, create_file: false }),
                Err(error) => Err(error),
            },
        }
    }

    /// The text that replaces the backing file when the store is flushed:
    /// the record of every pair, secret keys included, in order.
    pub fn serialize(&self) -> (text: String)
        ensures
            text@ == serialize(self.entries()),
            distinct_keys(self.entries()),
    {
        proof {
            use_type_invariant(self);
        }
        let mut text = String::new();
        let mut i: usize = 0;
        while i < self.items.len()
            invariant
                i <= self.items.len(),
                text@ == serialize(self.entries().take(i as int)),
            decreases self.items.len() - i,
        {
            let ghost before = text@;
            text.append(self.items[i].0.as_str());
            text.push(TAB);
            text.append(self.items[i].1.as_str());
            text.push(NEWLINE);
            proof {
                let entries = self.entries();
                let upto = entries.take(i + 1);
                assert(upto.drop_last() == entries.take(i as int));
                assert(upto.last() == (self.items[i as int].0@, self.items[i as int].1@));
                assert(text@ == before + record(upto.last().0, upto.last().1));
            }
            i = i + 1;
        }
        proof {
            assert(self.entries().take(i as int) == self.entries());
        }
        text
    }

    /// The listing of the keys that are not secret, one per line, in order;
    /// `None` where the store holds no such key.
    pub fn keys_as_str(&self) -> (text: Option<String>)
        ensures
            match listing(self.entries()) {
                Some(expected) => text matches Some(s) && s@ == expected,
                None => text is None,
            },
    {
        let mut all: Vec<char> = Vec::new();
        let mut i: usize = 0;
        while i < self.items.len()
            invariant
                i <= self.items.len(),
                all@ == visible_lines(self.entries().take(i as int)),
            decreases self.items.len() - i,
        {
            let key = self.items[i].0.as_str();
            let ghost before = all@;
            if key.is_empty() || key.get_char(0) != SECRET_MARK {
                let mut chars = chars_of(key);
                all.append(&mut chars);
                all.push(NEWLINE);
            }
            proof {
                let entries = self.entries();
                let upto = entries.take(i + 1);
                assert(upto.drop_last() == entries.take(i as int));
                assert(upto.last().0 == key@);
                if !is_secret(key@) {
                    assert(all@ == before + key@ + seq![NEWLINE]);
                }
            }
            i = i + 1;
        }
        proof {
            assert(self.entries().take(i as int) == self.entries());
        }
        if all.len() == 0 {
            return None;
        }
        let mut n: usize = all.len();
        while n > 0 && all[n - 1] == NEWLINE
            invariant
                n <= all.len(),
                forall|j: int| n <= j < all.len() ==> all[j] == NEWLINE,
            decreases n,
        {
            n = n - 1;
        }
        proof {
            lemma_trim_newlines_is(all@, n as int);
            assert(all@.subrange(0, n as int) == all@.take(n as int));
        }
        Some(string_of(&all, 0, n))
    }

    /// The help text.
    pub fn get_help_txt(&self) -> (text: String)
        ensures
            text@ == HELP_TEXT@,
    {
        HELP_TEXT.to_owned()
    }

    /// The answer to a command that the store does not know: always `None`.
    pub fn unknown(&self) -> (answer: Option<()>)
        ensures
            answer is None,
    {
        None
    }
}

} // verus!
