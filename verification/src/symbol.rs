//! The deduplicating symbol store.
//!
//! A `Symbol` is a copyable handle: the index its text received when it was
//! first interned. Two symbols of one store are equal exactly when their
//! texts are, and comparing them is one integer comparison however long the
//! texts are. The store is an explicit value owned by the caller (an
//! application that shares it across threads puts it behind its own lock);
//! interned text is kept for the life of the store and never removed.

use vstd::prelude::*;
use vstd::set_lib::lemma_len_subset;
use crate::text::str_chars;
use crate::text::chars_eq;
use crate::text::string_of_chars;
use crate::text::dec_digits;
use crate::text::lemma_dec_digits_injective;

verus! {

/// An interned identifier: a handle whose equality, ordering and hash are
/// those of the arena index it carries.
#[derive(Clone, Copy, PartialEq, Eq, Structural, Hash, PartialOrd, Ord, Debug)]
pub struct Symbol {
    pub id: usize,
}

impl Symbol {
    /// The arena index that stands in for the text's address: equal for
    /// equal texts of one store, distinct otherwise.
    pub fn addr(self) -> (r: usize)
        ensures
            r == self.id,
    {
        self.id
    }

    /// The interned text behind this handle.
    pub fn as_str<'a>(self, store: &'a SymbolStore) -> (r: &'a str)
        requires
            self.id < store.names().len(),
        ensures
            r@ == store.names()[self.id as int],
    {
        store.name_at(self.id)
    }
}

/// No two slots of the arena hold the same text.
pub open spec fn distinct_texts(names: Seq<Seq<char>>) -> bool {
    forall|i: int, j: int| 0 <= i < j < names.len() ==> names[i] != names[j]
}

/// The name a generated symbol receives from its number.
pub open spec fn gensym_text(n: nat) -> Seq<char> {
    seq!['G', '#'] + dec_digits(n)
}

proof fn lemma_gensym_text_injective(a: nat, b: nat)
    requires
        gensym_text(a) == gensym_text(b),
    ensures
        a == b,
{
    assert(dec_digits(a) =~= gensym_text(a).skip(2));
    assert(dec_digits(b) =~= gensym_text(b).skip(2));
    lemma_dec_digits_injective(a, b);
}

/// Two handles of one store that point at the same text are one handle:
/// with the intern contract (a present text leaves the store unchanged)
/// this says that interning the same text twice returns equal handles,
/// and that their order against every other handle never moves.
pub proof fn lemma_intern_deterministic(names: Seq<Seq<char>>, t: Seq<char>, i1: int, i2: int)
    requires
        distinct_texts(names),
        0 <= i1 < names.len(),
        0 <= i2 < names.len(),
        names[i1] == t,
        names[i2] == t,
    ensures
        i1 == i2,
{
}

/// The arena of interned texts and the generated-symbol counter.
pub struct SymbolStore {
    names: Vec<String>,
    counter: usize,
}

impl SymbolStore {
    /// The interned texts, in the order they arrived.
    pub closed spec fn names(&self) -> Seq<Seq<char>> {
        self.names@.map_values(|s: String| s@)
    }

    /// The next number `gensym` will try.
    pub closed spec fn counter_spec(&self) -> nat {
        self.counter as nat
    }

    /// The store's invariant: interned texts are pairwise distinct.
    pub open spec fn wf(&self) -> bool {
        distinct_texts(self.names())
    }

    /// Whether some slot already holds `t`.
    pub open spec fn has_text(&self, t: Seq<char>) -> bool {
        exists|j: int| 0 <= j < self.names().len() && self.names()[j] == t
    }

    /// An empty store.
    pub fn new() -> (r: SymbolStore)
        ensures
            r.wf(),
            r.names().len() == 0,
            r.counter_spec() == 0,
    {
        SymbolStore { names: Vec::new(), counter: 0 }
    }

    /// How many distinct texts have been interned.
    pub fn len(&self) -> (r: usize)
        ensures
            r == self.names().len(),
    {
        self.names.len()
    }

    /// The text in slot `id`.
    pub fn name_at<'a>(&'a self, id: usize) -> (r: &'a str)
        requires
            id < self.names().len(),
        ensures
            r@ == self.names()[id as int],
    {
        self.names[id].as_str()
    }

    /// The slot holding text `t`, if any.
    fn find_text(&self, t: &Vec<char>) -> (r: Option<usize>)
        ensures
            match r {
                Some(j) => j < self.names().len() && self.names()[j as int] == t@,
                None => !self.has_text(t@),
            },
    {
        let mut i: usize = 0;
        while i < self.names.len()
            invariant
                i <= self.names().len(),
                forall|j: int| 0 <= j < i ==> self.names()[j] != t@,
            decreases self.names.len() - i,
        {
            let cand = str_chars(self.names[i].as_str());
            if chars_eq(&cand, t) {
                return Some(i);
            }
            i = i + 1;
        }
        None
    }

    /// Deduplicating lookup-or-insert: the handle for `text`, minting a new
    /// slot only when the text was never seen. Present texts leave the
    /// store untouched, and no slot ever changes its text.
    pub fn intern(&mut self, text: &str) -> (sym: Symbol)
        requires
            old(self).wf(),
        ensures
            final(self).wf(),
            sym.id < final(self).names().len(),
            final(self).names()[sym.id as int] == text@,
            final(self).counter_spec() == old(self).counter_spec(),
            forall|j: int|
                0 <= j < old(self).names().len() ==> final(self).names()[j] == old(self).names()[j],
            old(self).has_text(text@) ==> final(self).names() == old(self).names(),
            !old(self).has_text(text@) ==> final(self).names() =~= old(self).names().push(text@)
                && sym.id == old(self).names().len(),
    {
        let chars = str_chars(text);
        match self.find_text(&chars) {
            Some(j) => {
                proof {
                    assert(self.has_text(text@));
                }
                Symbol { id: j }
            },
            None => {
                let id = self.names.len();
                self.names.push(text.to_owned());
                proof {
                    assert(self.names() =~= old(self).names().push(text@));
                }
                Symbol { id }
            },
        }
    }

    /// Mints a fresh symbol named `G#<n>`: numbers are probed from the
    /// monotone counter upward, skipping any that a caller interned by
    /// hand, so the result never collides with an existing text. `None`
    /// comes only when the numbering space above the counter is exhausted,
    /// which no real store reaches.
    pub fn gensym(&mut self) -> (r: Option<Symbol>)
        requires
            old(self).wf(),
        ensures
            final(self).wf(),
            forall|j: int|
                0 <= j < old(self).names().len() ==> final(self).names()[j] == old(self).names()[j],
            old(self).counter_spec() + old(self).names().len() + 1 < usize::MAX ==> (r is Some),
            (r is Some) ==> ({
                let sym = r->0;
                &&& sym.id == old(self).names().len()
                &&& final(self).names().len() == old(self).names().len() + 1
                &&& !old(self).has_text(final(self).names()[sym.id as int])
                &&& (exists|n: nat| final(self).names()[sym.id as int] == gensym_text(n))
                &&& final(self).counter_spec() > old(self).counter_spec()
            }),
            (r is None) ==> *final(self) == *old(self),
    {
        let len = self.names.len();
        if len >= usize::MAX - 1 || self.counter >= usize::MAX - len - 1 {
            return None;
        }
        let ghost mut tried = Set::<Seq<char>>::empty();
        let mut off: usize = 0;
        while off <= len
            invariant
                self.wf(),
                *self == *old(self),
                len == self.names().len(),
                self.counter_spec() + len + 1 < usize::MAX,
                off <= len + 1,
                tried.finite(),
                tried.len() == off,
                tried.subset_of(self.names().to_set()),
                forall|k: int|
                    0 <= k < off ==> tried.contains(#[trigger] gensym_text(
                        (self.counter_spec() + k) as nat,
                    )),
                forall|t: Seq<char>| #[trigger]
                    tried.contains(t) ==> exists|k: int|
                        0 <= k < off && t == #[trigger] gensym_text(
                            (self.counter_spec() + k) as nat,
                        ),
            decreases len + 1 - off,
        {
            let n = self.counter + off;
            let mut chars: Vec<char> = Vec::new();
            chars.push('G');
            chars.push('#');
            let digits = crate::text::u64_to_digits(n as u64);
            let mut di: usize = 0;
            while di < digits.len()
                invariant
                    di <= digits.len(),
                    chars@ =~= seq!['G', '#'] + digits@.take(di as int),
                decreases digits.len() - di,
            {
                chars.push(digits[di]);
                di = di + 1;
            }
            proof {
                assert(digits@.take(digits@.len() as int) =~= digits@);
                assert(chars@ == gensym_text(n as nat));
            }
            if self.find_text(&chars).is_none() {
                let s = string_of_chars(&chars);
                let ghost pre = self.names();
                self.names.push(s);
                self.counter = n + 1;
                proof {
                    assert(self.names() =~= pre.push(chars@));
                    assert(self.names()[len as int] == gensym_text(n as nat));
                }
                return Some(Symbol { id: len });
            }
            proof {
                let j = choose|j: int|
                    0 <= j < self.names().len() && self.names()[j] == chars@;
                assert(self.names().to_set().contains(chars@)) by {
                    assert(self.names().contains(chars@));
                }
                if tried.contains(chars@) {
                    let k = choose|k: int|
                        0 <= k < off && chars@ == #[trigger] gensym_text(
                            (self.counter_spec() + k) as nat,
                        );
                    lemma_gensym_text_injective(
                        (self.counter_spec() + k) as nat,
                        n as nat,
                    );
                    assert(false);
                }
                tried = tried.insert(chars@);
                assert forall|t: Seq<char>| #[trigger] tried.contains(t) implies exists|k: int|
                    0 <= k < off + 1 && t == #[trigger] gensym_text(
                        (self.counter_spec() + k) as nat,
                    ) by {
                    if t == chars@ {
                        let ko: int = off as int;
                        assert(t == gensym_text((self.counter_spec() + ko) as nat));
                    }
                }
            }
            off = off + 1;
        }
        proof {
            self.names().lemma_cardinality_of_set();
            lemma_len_subset(tried, self.names().to_set());
            assert(false);
        }
        None
    }
}

} // verus!
