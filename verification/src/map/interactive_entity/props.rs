//! Free-form properties of an entity.
use vstd::prelude::*;
use vstd::string::*;

use crate::text::same_text;

verus! {

/// The properties that a list of pairs stands for.
pub open spec fn pairs_map(pairs: Seq<(String, String)>) -> Map<Seq<char>, Seq<char>>
    decreases pairs.len(),
{
    if pairs.len() == 0 {
        Map::empty()
    } else {
        pairs_map(pairs.drop_last()).insert(pairs.last().0@, pairs.last().1@)
    }
}

/// Whether no two pairs have the same key.
pub open spec fn keys_differ(pairs: Seq<(String, String)>) -> bool {
    forall|i: int, j: int|
        0 <= i < j < pairs.len() ==> (#[trigger] pairs[i]).0@ != (#[trigger] pairs[j]).0@
}

proof fn lemma_pairs(pairs: Seq<(String, String)>)
    requires
        keys_differ(pairs),
    ensures
        forall|i: int|
            0 <= i < pairs.len() ==> pairs_map(pairs).contains_key((#[trigger] pairs[i]).0@)
                && pairs_map(pairs)[pairs[i].0@] == pairs[i].1@,
        forall|k: Seq<char>| #[trigger]
            pairs_map(pairs).contains_key(k) ==> exists|i: int|
                0 <= i < pairs.len() && (#[trigger] pairs[i]).0@ == k,
    decreases pairs.len(),
{
    if pairs.len() > 0 {
        let rest = pairs.drop_last();
        assert(keys_differ(rest)) by {
            assert forall|i: int, j: int| 0 <= i < j < rest.len() implies (#[trigger] rest[i]).0@
                != (#[trigger] rest[j]).0@ by {
                assert(pairs[i].0@ != pairs[j].0@);
            }
        }
        lemma_pairs(rest);
        assert forall|i: int| 0 <= i < pairs.len() implies pairs_map(pairs).contains_key(
            (#[trigger] pairs[i]).0@,
        ) && pairs_map(pairs)[pairs[i].0@] == pairs[i].1@ by {
            if i < rest.len() {
                assert(rest[i] == pairs[i]);
                assert(pairs[i].0@ != pairs[pairs.len() - 1].0@);
            }
        }
        assert forall|k: Seq<char>| #[trigger] pairs_map(pairs).contains_key(k) implies exists|i: int|
            0 <= i < pairs.len() && (#[trigger] pairs[i]).0@ == k by {
            if k == pairs.last().0@ {
                assert(pairs[pairs.len() - 1].0@ == k);
            } else {
                assert(pairs_map(rest).contains_key(k));
                let i = choose|i: int| 0 <= i < rest.len() && (#[trigger] rest[i]).0@ == k;
                assert(pairs[i].0@ == k);
            }
        }
    }
}

proof fn lemma_pair_replaced(pairs: Seq<(String, String)>, at: int, pair: (String, String))
    requires
        keys_differ(pairs),
        0 <= at < pairs.len(),
        pairs[at].0@ == pair.0@,
    ensures
        keys_differ(pairs.update(at, pair)),
        pairs_map(pairs.update(at, pair)) == pairs_map(pairs).insert(pair.0@, pair.1@),
{
    let after = pairs.update(at, pair);
    assert forall|i: int, j: int| 0 <= i < j < after.len() implies (#[trigger] after[i]).0@
        != (#[trigger] after[j]).0@ by {
        assert(pairs[i].0@ != pairs[j].0@);
    }
    lemma_pairs(pairs);
    lemma_pairs(after);
    let want = pairs_map(pairs).insert(pair.0@, pair.1@);
    assert(pairs_map(after) =~= want) by {
        assert forall|k: Seq<char>| pairs_map(after).contains_key(k) <==> want.contains_key(k) by {
            if pairs_map(after).contains_key(k) {
                let i = choose|i: int| 0 <= i < after.len() && (#[trigger] after[i]).0@ == k;
                assert(pairs[i].0@ == k);
            }
            if want.contains_key(k) && k != pair.0@ {
                let i = choose|i: int| 0 <= i < pairs.len() && (#[trigger] pairs[i]).0@ == k;
                assert(after[i].0@ == k);
            }
            assert(after[at].0@ == pair.0@);
        }
        assert forall|k: Seq<char>| pairs_map(after).contains_key(k) implies pairs_map(after)[k]
            == want[k] by {
            let i = choose|i: int| 0 <= i < after.len() && (#[trigger] after[i]).0@ == k;
            if i != at {
                assert(pairs[i] == after[i]);
                assert(after[i].0@ != after[at].0@) by {
                    if i < at {
                        assert(after[i].0@ != after[at].0@);
                    } else {
                        assert(after[at].0@ != after[i].0@);
                    }
                }
            }
        }
    }
}

/// `String -> String` properties; no key occurs twice.
#[derive(Debug)]
pub struct Props {
    pairs: Vec<(String, String)>,
}

impl View for Props {
    type V = Map<Seq<char>, Seq<char>>;

    closed spec fn view(&self) -> Map<Seq<char>, Seq<char>> {
        pairs_map(self.pairs@)
    }
}

impl Props {
    #[verifier::type_invariant]
    spec fn inv(self) -> bool {
        keys_differ(self.pairs@)
    }

    pub fn new() -> (props: Self)
        ensures
            props@ == Map::<Seq<char>, Seq<char>>::empty(),
    {
        Props { pairs: Vec::new() }
    }

    fn find(&self, key: &str) -> (at: Option<usize>)
        ensures
            match at {
                Some(i) => i < self.pairs@.len() && self.pairs@[i as int].0@ == key@,
                None => forall|i: int| 0 <= i < self.pairs@.len() ==> (#[trigger] self.pairs@[i]).0@ != key@,
            },
    {
        let mut i: usize = 0;
        while i < self.pairs.len()
            invariant
                i <= self.pairs@.len(),
                forall|j: int| 0 <= j < i ==> (#[trigger] self.pairs@[j]).0@ != key@,
            decreases self.pairs@.len() - i,
        {
            if same_text(self.pairs[i].0.as_str(), key) {
                return Some(i);
            }
            i += 1;
        }
        None
    }

    /// Inserts or overwrites a property.
    pub fn set(&mut self, key: &str, value: &str)
        ensures
            final(self)@ == old(self)@.insert(key@, value@),
    {
        proof {
            use_type_invariant(&*self);
        }
        let mut pairs: Vec<(String, String)> = Vec::new();
        let at = self.find(key);
        let ghost before = self.pairs@;
        std::mem::swap(&mut pairs, &mut self.pairs);
        let pair: (String, String) = (key.to_owned(), value.to_owned());
        match at {
            Some(i) => {
                proof {
                    lemma_pair_replaced(before, i as int, pair);
                }
                pairs.set(i, pair);
            },
            None => {
                pairs.push(pair);
                proof {
                    assert(pairs@.drop_last() =~= before);
                }
            },
        }
        self.pairs = pairs;
    }

    /// The properties that a list of pairs stands for; of two pairs with one key the later
    /// counts.
    pub fn from_pairs(pairs: &Vec<(String, String)>) -> (props: Self)
        ensures
            props@ == pairs_map(pairs@),
    {
        let mut props = Props::new();
        let mut i: usize = 0;
        assert(pairs@.take(0) =~= Seq::<(String, String)>::empty());
        while i < pairs.len()
            invariant
                i <= pairs@.len(),
                props@ == pairs_map(pairs@.take(i as int)),
            decreases pairs@.len() - i,
        {
            props.set(pairs[i].0.as_str(), pairs[i].1.as_str());
            assert(pairs@.take(i + 1).drop_last() =~= pairs@.take(i as int));
            i += 1;
        }
        assert(pairs@.take(i as int) =~= pairs@);
        props
    }

    /// Reads a property, or `None` if unset.
    pub fn get(&self, key: &str) -> (value: Option<String>)
        ensures
            match value {
                Some(v) => self@.contains_key(key@) && v@ == self@[key@],
                None => !self@.contains_key(key@),
            },
    {
        proof {
            use_type_invariant(self);
            lemma_pairs(self.pairs@);
        }
        match self.find(key) {
            Some(i) => Some(self.pairs[i].1.as_str().to_owned()),
            None => None,
        }
    }

    /// An owned copy as a list of pairs, no key twice.
    pub fn to_pairs(&self) -> (out: Vec<(String, String)>)
        ensures
            keys_differ(out@),
            pairs_map(out@) == self@,
    {
        proof {
            use_type_invariant(self);
        }
        let mut out: Vec<(String, String)> = Vec::with_capacity(self.pairs.len());
        let mut i: usize = 0;
        assert(self.pairs@.take(0) =~= Seq::<(String, String)>::empty());
        while i < self.pairs.len()
            invariant
                i <= self.pairs@.len(),
                out@.len() == i,
                forall|j: int|
                    0 <= j < i ==> (#[trigger] out@[j]).0@ == self.pairs@[j].0@ && out@[j].1@
                        == self.pairs@[j].1@,
                pairs_map(out@) == pairs_map(self.pairs@.take(i as int)),
            decreases self.pairs@.len() - i,
        {
            let ghost before = out@;
            out.push((self.pairs[i].0.as_str().to_owned(), self.pairs[i].1.as_str().to_owned()));
            proof {
                assert(out@.drop_last() =~= before);
                assert(self.pairs@.take(i + 1).drop_last() =~= self.pairs@.take(i as int));
            }
            i += 1;
        }
        proof {
            assert(self.pairs@.take(i as int) =~= self.pairs@);
            assert forall|a: int, b: int| 0 <= a < b < out@.len() implies (#[trigger] out@[a]).0@
                != (#[trigger] out@[b]).0@ by {
                assert(self.pairs@[a].0@ != self.pairs@[b].0@);
            }
        }
        out
    }
}

impl Clone for Props {
    fn clone(&self) -> (out: Self)
        ensures
            out@ == self@,
    {
        Props { pairs: self.to_pairs() }
    }
}

} // verus!
