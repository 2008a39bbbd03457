//! Named fields in the order in which they were first set: the headers,
//! query parameters and cookies of a message.

use vstd::prelude::*;
use vstd::slice::{slice_subrange, slice_to_vec};
use crate::assoc::{distinct_keys, key_index, lemma_key_index_unique, lemma_put, lookup, put};
use crate::text::{
    bytes_equal, find_byte, lemma_index_of, sides, split, split_once, trim, trimmed,
};

verus! {

/// A list of `(name, value)` pairs.
pub type Pairs = Seq<(Seq<u8>, Seq<u8>)>;

/// The fields that `pieces` set, taken in order. A piece sets the field
/// whose name stands before its first `sep` to what stands after it; a piece
/// that does not hold `sep` sets nothing.
pub open spec fn collect(pieces: Seq<Seq<u8>>, sep: Seq<u8>) -> Pairs
    decreases pieces.len(),
{
    if pieces.len() == 0 {
        Pairs::empty()
    } else {
        let before = collect(pieces.drop_last(), sep);
        match sides(pieces.last(), sep) {
            Some((name, value)) => put(before, name, value),
            None => before,
        }
    }
}

/// Each of `pieces` without the whitespace at its ends.
pub open spec fn trimmed_all(pieces: Seq<Seq<u8>>) -> Seq<Seq<u8>> {
    Seq::new(pieces.len(), |i: int| trimmed(pieces[i]))
}

/// The entries of a list `s` whose entries `delimiter` separates, each
/// trimmed if `trim_entries` says so.
pub open spec fn list_entries(s: Seq<u8>, delimiter: u8, trim_entries: bool) -> Seq<Seq<u8>> {
    if trim_entries {
        trimmed_all(split(s, delimiter))
    } else {
        split(s, delimiter)
    }
}

/// No name occurs twice in what `collect` gives.
pub proof fn lemma_collect_distinct(pieces: Seq<Seq<u8>>, sep: Seq<u8>)
    ensures
        distinct_keys(collect(pieces, sep)),
    decreases pieces.len(),
{
    if pieces.len() > 0 {
        lemma_collect_distinct(pieces.drop_last(), sep);
        match sides(pieces.last(), sep) {
            Some((name, value)) => {
                lemma_put(collect(pieces.drop_last(), sep), name, value);
            },
            None => {},
        }
    }
}

/// Fields of a message: names with their values, in the order in which the
/// names were first set. No name occurs twice.
#[derive(Debug)]
pub struct Fields {
    entries: Vec<(Vec<u8>, Vec<u8>)>,
}

impl View for Fields {
    type V = Pairs;

    closed spec fn view(&self) -> Pairs {
        Seq::new(self.entries@.len(), |i: int| (self.entries@[i].0@, self.entries@[i].1@))
    }
}

impl Fields {
    /// What holds of all fields at all times.
    #[verifier::type_invariant]
    pub open spec fn names_are_distinct(self) -> bool {
        distinct_keys(self@)
    }

    /// No fields.
    pub fn new() -> (fields: Fields)
        ensures
            fields@ == Pairs::empty(),
            distinct_keys(fields@),
    {
        let fields = Fields { entries: Vec::new() };
        assert(fields@ =~= Pairs::empty());
        fields
    }

    /// The number of fields.
    pub fn len(&self) -> (n: usize)
        ensures
            n == self@.len(),
    {
        self.entries.len()
    }

    /// The name of the field at index `i`.
    pub fn name_at(&self, i: usize) -> (name: &Vec<u8>)
        requires
            i < self@.len(),
        ensures
            name@ == self@[i as int].0,
    {
        &self.entries[i].0
    }

    /// The value of the field at index `i`.
    pub fn value_at(&self, i: usize) -> (value: &Vec<u8>)
        requires
            i < self@.len(),
        ensures
            value@ == self@[i as int].1,
    {
        &self.entries[i].1
    }

    /// Where the field `name` stands, or `len()` if it is not set.
    fn position(&self, name: &[u8]) -> (i: usize)
        ensures
            i == key_index(self@, name@),
    {
        let mut i: usize = 0;
        while i < self.entries.len() && !bytes_equal(self.entries[i].0.as_slice(), name)
            invariant
                i <= self@.len(),
                self@.len() == self.entries@.len(),
                forall|j: int| 0 <= j < i ==> self@[j].0 != name@,
            decreases self.entries.len() - i,
        {
            i += 1;
        }
        proof {
            lemma_key_index_unique(self@, name@, i as int);
        }
        i
    }

    /// The value of the field `name`, if it is set.
    pub fn get(&self, name: &[u8]) -> (value: Option<&Vec<u8>>)
        ensures
            match value {
                Some(v) => lookup(self@, name@) == Some(v@),
                None => lookup(self@, name@) is None,
            },
    {
        let i = self.position(name);
        if i < self.entries.len() {
            Some(&self.entries[i].1)
        } else {
            None
        }
    }

    /// Sets the field `name` to `value`. A field that is already set keeps its
    /// place in the order.
    pub fn insert(&mut self, name: Vec<u8>, value: Vec<u8>)
        ensures
            final(self)@ == put(old(self)@, name@, value@),
            distinct_keys(final(self)@),
    {
        proof {
            use_type_invariant(&*self);
            lemma_put(self@, name@, value@);
        }
        let i = self.position(name.as_slice());
        let ghost before = self@;
        let mut entries: Vec<(Vec<u8>, Vec<u8>)> = Vec::new();
        std::mem::swap(&mut entries, &mut self.entries);
        if i < entries.len() {
            entries[i] = (name, value);
        } else {
            entries.push((name, value));
        }
        proof {
            let after = Seq::new(entries@.len(), |k: int| (entries@[k].0@, entries@[k].1@));
            assert(after =~= put(before, name@, value@));
        }
        self.entries = entries;
    }

    /// Sets the field that `piece` denotes: the name before its first `sep`
    /// to what follows that `sep`. A piece without `sep` changes nothing.
    pub fn insert_piece(&mut self, piece: &[u8], sep: &[u8])
        ensures
            final(self)@ == match sides(piece@, sep@) {
                Some((name, value)) => put(old(self)@, name, value),
                None => old(self)@,
            },
            distinct_keys(final(self)@),
    {
        proof {
            use_type_invariant(&*self);
        }
        match split_once(piece, sep) {
            Some((name, value)) => {
                self.insert(slice_to_vec(name), slice_to_vec(value));
            },
            None => {},
        }
    }
}

/// Reads the fields of a list: `delimiter` separates its entries, and within
/// an entry `sep` separates the name from the value. With `trim_entries` the
/// whitespace at both ends of an entry is dropped first.
pub fn parse_list(s: &[u8], delimiter: u8, sep: &[u8], trim_entries: bool) -> (fields: Fields)
    ensures
        fields@ == collect(list_entries(s@, delimiter, trim_entries), sep@),
{
    let mut fields = Fields::new();
    let mut rest: &[u8] = s;
    let ghost mut done: Seq<Seq<u8>> = Seq::empty();
    assert(done + split(rest@, delimiter) =~= split(s@, delimiter));
    assert(trimmed_all(done) =~= done);
    loop
        invariant_except_break
            split(s@, delimiter) == done + split(rest@, delimiter),
            fields@ == collect(
                if trim_entries {
                    trimmed_all(done)
                } else {
                    done
                },
                sep@,
            ),
        ensures
            fields@ == collect(list_entries(s@, delimiter, trim_entries), sep@),
        decreases rest@.len(),
    {
        let i = find_byte(rest, delimiter);
        let n: usize = rest.len();
        proof {
            lemma_index_of(rest@, delimiter);
        }
        let piece = slice_subrange(rest, 0, i);
        let entry = if trim_entries {
            trim(piece)
        } else {
            piece
        };
        fields.insert_piece(entry, sep);
        proof {
            let before = done;
            done = done.push(piece@);
            assert(done.drop_last() =~= before);
            assert(trimmed_all(done).drop_last() =~= trimmed_all(before));
            assert(trimmed_all(done).last() == trimmed(piece@));
        }
        if i < n {
            let ghost old_rest = rest@;
            rest = slice_subrange(rest, i + 1, n);
            assert(done + split(rest@, delimiter) =~= done.drop_last() + split(old_rest, delimiter));
        } else {
            assert(piece@ =~= rest@);
            assert(done =~= done.drop_last() + split(rest@, delimiter));
            break;
        }
    }
    fields
}

} // verus!
