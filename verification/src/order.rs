//! The order in which the count tables keep their keys.
//!
//! Words are ordered as strings are: character by character, by code point, a
//! proper prefix before the longer word. Pairs of words are ordered by their
//! first word, then by their second.

use vstd::prelude::*;

verus! {

/// Where one key stands relative to another.
#[derive(Clone, Copy, Debug, PartialEq, Eq, Structural)]
pub enum Rank {
    Before,
    Same,
    After,
}

/// A word, held as its characters.
pub type Token = Vec<char>;

/// Two adjacent words of one line.
pub type Bigram = (Vec<char>, Vec<char>);

/// `a` comes strictly before `b` in lexicographic order by code point.
pub open spec fn word_precedes(a: Seq<char>, b: Seq<char>) -> bool
    decreases a.len(),
{
    if b.len() == 0 {
        false
    } else if a.len() == 0 {
        true
    } else if a[0] == b[0] {
        word_precedes(a.drop_first(), b.drop_first())
    } else {
        (a[0] as u32) < (b[0] as u32)
    }
}

/// `a` comes strictly before `b`: by the first word, and by the second where
/// the first words are the same.
pub open spec fn pair_precedes(a: (Seq<char>, Seq<char>), b: (Seq<char>, Seq<char>)) -> bool {
    word_precedes(a.0, b.0) || (a.0 == b.0 && word_precedes(a.1, b.1))
}

/// Different characters have different code points.
pub proof fn lemma_code_injective(x: char, y: char)
    requires
        x as u32 == y as u32,
    ensures
        x == y,
{
    vstd::utf8::char_u32_cast(x, x as u32);
    vstd::utf8::char_u32_cast(y, y as u32);
}

/// The order of words by their first difference: `a` comes before `b` where
/// the two agree up to some place at which `a` ends and `b` goes on, or at
/// which `a` has the character of the smaller code point.
pub open spec fn differs_first_at(a: Seq<char>, b: Seq<char>, k: int) -> bool {
    &&& 0 <= k <= a.len()
    &&& k <= b.len()
    &&& a.take(k) == b.take(k)
    &&& if k == a.len() {
        k < b.len()
    } else {
        k < b.len() && (a[k] as u32) < (b[k] as u32)
    }
}

/// A word comes before another exactly where the first difference between
/// the two says so.
pub proof fn law_word_order(a: Seq<char>, b: Seq<char>)
    ensures
        word_precedes(a, b) <==> exists|k: int| differs_first_at(a, b, k),
    decreases a.len(),
{
    if b.len() == 0 {
        assert forall|k: int| !differs_first_at(a, b, k) by {}
    } else if a.len() == 0 {
        assert(a.take(0) =~= b.take(0));
        assert(differs_first_at(a, b, 0));
    } else if a[0] == b[0] {
        let x = a.drop_first();
        let y = b.drop_first();
        law_word_order(x, y);
        if word_precedes(x, y) {
            let k = choose|k: int| differs_first_at(x, y, k);
            assert(a.take(k + 1) =~= seq![a[0]] + x.take(k));
            assert(b.take(k + 1) =~= seq![b[0]] + y.take(k));
            if k < x.len() {
                assert(x[k] == a[k + 1]);
                assert(y[k] == b[k + 1]);
            }
            assert(differs_first_at(a, b, k + 1));
        }
        if exists|k: int| differs_first_at(a, b, k) {
            let k = choose|k: int| differs_first_at(a, b, k);
            assert(k > 0);
            assert(x.take(k - 1) =~= a.take(k).drop_first());
            assert(y.take(k - 1) =~= b.take(k).drop_first());
            if k < a.len() {
                assert(x[k - 1] == a[k]);
                assert(y[k - 1] == b[k]);
            }
            assert(differs_first_at(x, y, k - 1));
        }
    } else {
        assert(a.take(0) =~= b.take(0));
        if (a[0] as u32) < (b[0] as u32) {
            assert(differs_first_at(a, b, 0));
        }
        if exists|k: int| differs_first_at(a, b, k) {
            let k = choose|k: int| differs_first_at(a, b, k);
            if k > 0 {
                assert(a.take(k)[0] == b.take(k)[0]);
            }
        }
    }
}

/// No word comes before itself.
pub proof fn lemma_word_irreflexive(a: Seq<char>)
    ensures
        !word_precedes(a, a),
    decreases a.len(),
{
    if a.len() > 0 {
        lemma_word_irreflexive(a.drop_first());
    }
}

/// The order of words is transitive.
pub proof fn lemma_word_transitive(a: Seq<char>, b: Seq<char>, c: Seq<char>)
    requires
        word_precedes(a, b),
        word_precedes(b, c),
    ensures
        word_precedes(a, c),
    decreases a.len(),
{
    if a.len() > 0 && a[0] == b[0] && b[0] == c[0] {
        lemma_word_transitive(a.drop_first(), b.drop_first(), c.drop_first());
    }
}

/// Of two different words one comes before the other.
pub proof fn lemma_word_total(a: Seq<char>, b: Seq<char>)
    ensures
        word_precedes(a, b) || a == b || word_precedes(b, a),
    decreases a.len(),
{
    if a.len() == 0 || b.len() == 0 {
        assert(a.len() == 0 && b.len() == 0 ==> a =~= b);
    } else if a[0] == b[0] {
        lemma_word_total(a.drop_first(), b.drop_first());
        if a.drop_first() == b.drop_first() {
            assert(a =~= seq![a[0]] + a.drop_first());
            assert(b =~= seq![b[0]] + b.drop_first());
        }
    } else if a[0] as u32 == b[0] as u32 {
        lemma_code_injective(a[0], b[0]);
    }
}

/// What a count table asks of its keys: a model to speak of in contracts, a
/// strict total order on the models, and a comparison that computes it.
pub trait Key: Sized {
    type Model;

    spec fn model(&self) -> Self::Model;

    spec fn precedes(a: Self::Model, b: Self::Model) -> bool;

    proof fn lemma_strict_total_order(a: Self::Model, b: Self::Model, c: Self::Model)
        ensures
            !Self::precedes(a, a),
            Self::precedes(a, b) && Self::precedes(b, c) ==> Self::precedes(a, c),
            Self::precedes(a, b) || a == b || Self::precedes(b, a),
    ;

    fn rank(&self, other: &Self) -> (r: Rank)
        ensures
            r == Rank::Before <==> Self::precedes(self.model(), other.model()),
            r == Rank::Same <==> self.model() == other.model(),
            r == Rank::After <==> Self::precedes(other.model(), self.model()),
    ;

    fn duplicate(&self) -> (r: Self)
        ensures
            r.model() == self.model(),
    ;
}

/// Compares two words character by character.
pub fn rank_words(a: &Vec<char>, b: &Vec<char>) -> (r: Rank)
    ensures
        r == Rank::Before <==> word_precedes(a@, b@),
        r == Rank::Same <==> a@ == b@,
        r == Rank::After <==> word_precedes(b@, a@),
{
    let mut i: usize = 0;
    proof {
        assert(a@.skip(0) == a@);
        assert(b@.skip(0) == b@);
    }
    while i < a.len() && i < b.len()
        invariant
            i <= a.len(),
            i <= b.len(),
            a@.take(i as int) == b@.take(i as int),
            word_precedes(a@, b@) == word_precedes(a@.skip(i as int), b@.skip(i as int)),
            word_precedes(b@, a@) == word_precedes(b@.skip(i as int), a@.skip(i as int)),
        decreases a.len() - i,
    {
        proof {
            assert(a@.skip(i as int).drop_first() == a@.skip(i as int + 1));
            assert(b@.skip(i as int).drop_first() == b@.skip(i as int + 1));
            assert(a@.skip(i as int)[0] == a@[i as int]);
            assert(b@.skip(i as int)[0] == b@[i as int]);
        }
        if a[i] != b[i] {
            proof {
                let x: char = a@[i as int];
                let y: char = b@[i as int];
                assert(a@ != b@);
                if x as u32 == y as u32 {
                    lemma_code_injective(x, y);
                }
                let sa = a@.skip(i as int);
                let sb = b@.skip(i as int);
                assert(word_precedes(sa, sb) == ((x as u32) < (y as u32)));
                assert(word_precedes(sb, sa) == ((y as u32) < (x as u32)));
            }
            if (a[i] as u32) < (b[i] as u32) {
                return Rank::Before;
            } else {
                return Rank::After;
            }
        }
        proof {
            assert(a@.take(i as int + 1) == a@.take(i as int).push(a@[i as int]));
            assert(b@.take(i as int + 1) == b@.take(i as int).push(b@[i as int]));
        }
        i += 1;
    }
    proof {
        lemma_word_irreflexive(a@);
        if a.len() == b.len() {
            assert(a@ == a@.take(i as int));
            assert(b@ == b@.take(i as int));
        }
    }
    if a.len() < b.len() {
        Rank::Before
    } else if a.len() > b.len() {
        Rank::After
    } else {
        Rank::Same
    }
}

/// Copies a word.
pub fn copy_word(word: &Vec<char>) -> (r: Vec<char>)
    ensures
        r@ == word@,
{
    let mut r: Vec<char> = Vec::new();
    let mut i: usize = 0;
    while i < word.len()
        invariant
            i <= word.len(),
            r@ == word@.take(i as int),
        decreases word.len() - i,
    {
        r.push(word[i]);
        proof {
            assert(word@.take(i as int + 1) == word@.take(i as int).push(word@[i as int]));
        }
        i += 1;
    }
    proof {
        assert(word@.take(word.len() as int) == word@);
    }
    r
}

impl Key for Vec<char> {
    type Model = Seq<char>;

    open spec fn model(&self) -> Seq<char> {
        self@
    }

    open spec fn precedes(a: Seq<char>, b: Seq<char>) -> bool {
        word_precedes(a, b)
    }

    proof fn lemma_strict_total_order(a: Seq<char>, b: Seq<char>, c: Seq<char>) {
        lemma_word_irreflexive(a);
        lemma_word_total(a, b);
        if word_precedes(a, b) && word_precedes(b, c) {
            lemma_word_transitive(a, b, c);
        }
    }

    fn rank(&self, other: &Self) -> (r: Rank) {
        rank_words(self, other)
    }

    fn duplicate(&self) -> (r: Self) {
        copy_word(self)
    }
}

impl Key for (Vec<char>, Vec<char>) {
    type Model = (Seq<char>, Seq<char>);

    open spec fn model(&self) -> (Seq<char>, Seq<char>) {
        (self.0@, self.1@)
    }

    open spec fn precedes(a: (Seq<char>, Seq<char>), b: (Seq<char>, Seq<char>)) -> bool {
        pair_precedes(a, b)
    }

    proof fn lemma_strict_total_order(
        a: (Seq<char>, Seq<char>),
        b: (Seq<char>, Seq<char>),
        c: (Seq<char>, Seq<char>),
    ) {
        lemma_word_irreflexive(a.0);
        lemma_word_irreflexive(a.1);
        lemma_word_total(a.0, b.0);
        lemma_word_total(a.1, b.1);
        if pair_precedes(a, b) && pair_precedes(b, c) {
            if word_precedes(a.0, b.0) && word_precedes(b.0, c.0) {
                lemma_word_transitive(a.0, b.0, c.0);
            }
            if a.0 == b.0 && b.0 == c.0 {
                lemma_word_transitive(a.1, b.1, c.1);
            }
        }
    }

    fn rank(&self, other: &Self) -> (r: Rank) {
        proof {
            lemma_word_irreflexive(self.0@);
            lemma_word_irreflexive(other.0@);
            if word_precedes(self.0@, other.0@) && word_precedes(other.0@, self.0@) {
                lemma_word_transitive(self.0@, other.0@, self.0@);
            }
            if word_precedes(self.1@, other.1@) && word_precedes(other.1@, self.1@) {
                lemma_word_transitive(self.1@, other.1@, self.1@);
            }
            lemma_word_irreflexive(self.1@);
        }
        match rank_words(&self.0, &other.0) {
            Rank::Before => Rank::Before,
            Rank::After => Rank::After,
            Rank::Same => rank_words(&self.1, &other.1),
        }
    }

    fn duplicate(&self) -> (r: Self) {
        (copy_word(&self.0), copy_word(&self.1))
    }
}

/// A row of a frequency table with its count before it, and between the two
/// the place at which the row stood.
pub type Ranked = (u64, usize, Vec<char>);

/// `a` comes strictly before `b`: by the larger count, among rows of one
/// count by the earlier place, and among rows of one place by the word.
pub open spec fn ranked_precedes(a: (nat, nat, Seq<char>), b: (nat, nat, Seq<char>)) -> bool {
    a.0 > b.0 || (a.0 == b.0 && (a.1 < b.1 || (a.1 == b.1 && word_precedes(a.2, b.2))))
}

impl Key for (u64, usize, Vec<char>) {
    type Model = (nat, nat, Seq<char>);

    open spec fn model(&self) -> (nat, nat, Seq<char>) {
        (self.0 as nat, self.1 as nat, self.2@)
    }

    open spec fn precedes(a: (nat, nat, Seq<char>), b: (nat, nat, Seq<char>)) -> bool {
        ranked_precedes(a, b)
    }

    proof fn lemma_strict_total_order(
        a: (nat, nat, Seq<char>),
        b: (nat, nat, Seq<char>),
        c: (nat, nat, Seq<char>),
    ) {
        lemma_word_irreflexive(a.2);
        lemma_word_total(a.2, b.2);
        if word_precedes(a.2, b.2) && word_precedes(b.2, c.2) {
            lemma_word_transitive(a.2, b.2, c.2);
        }
    }

    fn rank(&self, other: &Self) -> (r: Rank) {
        proof {
            lemma_word_irreflexive(self.2@);
            if word_precedes(self.2@, other.2@) && word_precedes(other.2@, self.2@) {
                lemma_word_transitive(self.2@, other.2@, self.2@);
            }
        }
        if self.0 > other.0 {
            Rank::Before
        } else if self.0 < other.0 {
            Rank::After
        } else if self.1 < other.1 {
            Rank::Before
        } else if self.1 > other.1 {
            Rank::After
        } else {
            rank_words(&self.2, &other.2)
        }
    }

    fn duplicate(&self) -> (r: Self) {
        (self.0, self.1, copy_word(&self.2))
    }
}

} // verus!
