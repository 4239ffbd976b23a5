//! The two Unicode oracles the engine consults, supplied as data: the
//! canonical combining class of a character, and the canonical pairwise
//! composition relation.

use vstd::prelude::*;

verus! {

/// The class assigned by the first entry of `s` for `c`; characters with no
/// entry are starters (class 0).
pub open spec fn class_in(s: Seq<(char, u8)>, c: char) -> u8
    decreases s.len(),
{
    if s.len() == 0 {
        0u8
    } else if s[0].0 == c {
        s[0].1
    } else {
        class_in(s.drop_first(), c)
    }
}

/// The composition given by the first entry of `s` for the pair `(a, b)`;
/// pairs with no entry do not compose.
pub open spec fn compose_in(s: Seq<(char, char, char)>, a: char, b: char) -> Option<char>
    decreases s.len(),
{
    if s.len() == 0 {
        None
    } else if s[0].0 == a && s[0].1 == b {
        Some(s[0].2)
    } else {
        compose_in(s.drop_first(), a, b)
    }
}

/// Combining-class and composition tables.  `classes` maps a character to
/// its canonical combining class (absent means 0, a starter); `pairs` maps a
/// `(base, mark)` pair to its precomposed character (absent means the pair
/// does not compose, as for the composition-exclusion set).
pub struct Oracle {
    classes: Vec<(char, u8)>,
    pairs: Vec<(char, char, char)>,
}

impl Oracle {
    /// The combining class this oracle assigns to `c`.
    pub closed spec fn class_spec(self, c: char) -> u8 {
        class_in(self.classes@, c)
    }

    /// The composition this oracle assigns to the pair `(a, b)`.
    pub closed spec fn compose_spec(self, a: char, b: char) -> Option<char> {
        compose_in(self.pairs@, a, b)
    }

    pub fn new(classes: Vec<(char, u8)>, pairs: Vec<(char, char, char)>) -> (r: Oracle)
        ensures
            forall|c: char| #[trigger] r.class_spec(c) == class_in(classes@, c),
            forall|a: char, b: char| #[trigger] r.compose_spec(a, b) == compose_in(pairs@, a, b),
    {
        Oracle { classes, pairs }
    }

    /// The canonical combining class of `c`: 0 for starters, nonzero for
    /// combining marks.
    pub fn canonical_combining_class(&self, c: char) -> (r: u8)
        ensures
            r == self.class_spec(c),
    {
        let mut i: usize = 0;
        proof {
            assert(self.classes@.skip(0) =~= self.classes@);
        }
        while i < self.classes.len()
            invariant
                i <= self.classes.len(),
                class_in(self.classes@.skip(i as int), c) == self.class_spec(c),
            decreases self.classes.len() - i,
        {
            let e = self.classes[i];
            proof {
                assert(self.classes@.skip(i as int)[0] == self.classes@[i as int]);
                assert(self.classes@.skip(i as int).drop_first() =~= self.classes@.skip(
                    i as int + 1,
                ));
            }
            if e.0 == c {
                return e.1;
            }
            i = i + 1;
        }
        0
    }

    /// The canonical composition of the pair `(a, b)`: `Some` of the
    /// precomposed character when the pair composes, `None` otherwise.
    pub fn compose(&self, a: char, b: char) -> (r: Option<char>)
        ensures
            r == self.compose_spec(a, b),
    {
        let mut i: usize = 0;
        proof {
            assert(self.pairs@.skip(0) =~= self.pairs@);
        }
        while i < self.pairs.len()
            invariant
                i <= self.pairs.len(),
                compose_in(self.pairs@.skip(i as int), a, b) == self.compose_spec(a, b),
            decreases self.pairs.len() - i,
        {
            let e = self.pairs[i];
            proof {
                assert(self.pairs@.skip(i as int)[0] == self.pairs@[i as int]);
                assert(self.pairs@.skip(i as int).drop_first() =~= self.pairs@.skip(i as int + 1));
            }
            if e.0 == a && e.1 == b {
                return Some(e.2);
            }
            i = i + 1;
        }
        None
    }
}

} // verus!
