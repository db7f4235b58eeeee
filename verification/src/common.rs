//! Regular-expression tests and maps built from pairs.
use vstd::prelude::*;
use std::collections::HashMap;
use std::hash::Hash;
use vstd::std_specs::hash::obeys_key_model;

verus! {

#[verifier::external_type_specification]
#[verifier::external_body]
pub struct ExRegex(regex::Regex);

/// Whether `regex::Regex::new` accepts the pattern (with the crate's default size
/// limit).
pub uninterp spec fn regex_compiles(pattern: Seq<char>) -> bool;

/// Whether the compiled pattern matches somewhere in the subject
/// (`regex::Regex::is_match`).
pub uninterp spec fn regex_finds(pattern: Seq<char>, subject: Seq<char>) -> bool;

/// A compiled regular expression together with its source text.
pub struct Pattern {
    source: String,
    compiled: regex::Regex,
}

impl Pattern {
    /// The source text of the pattern.
    pub closed spec fn source(&self) -> Seq<char> {
        self.source@
    }

    /// Compiles a pattern with `regex::Regex::new`: `None` exactly when the crate
    /// rejects the pattern.
    #[verifier::external_body]
    fn compile(pattern: &str) -> (r: Option<Pattern>)
        ensures
            r is Some <==> regex_compiles(pattern@),
            r matches Some(p) ==> p.source() == pattern@,
    {
        match regex::Regex::new(pattern) {
            Ok(compiled) => Some(Pattern { source: pattern.to_string(), compiled }),
            Err(_) => None,
        }
    }

    /// Whether the pattern matches somewhere in `subject` (`regex::Regex::is_match`).
    #[verifier::external_body]
    fn is_match(&self, subject: &str) -> (r: bool)
        ensures
            r == regex_finds(self.source(), subject@),
    {
        self.compiled.is_match(subject)
    }
}

/// Whether `regex_str` is a valid regular expression that matches somewhere in
/// `subject`; an invalid expression matches nothing.
pub fn regex_test(regex_str: &str, subject: &str) -> (r: bool)
    ensures
        r == (regex_compiles(regex_str@) && regex_finds(regex_str@, subject@)),
{
    match Pattern::compile(regex_str) {
        None => false,
        Some(re) => re.is_match(subject),
    }
}

/// The map that inserting the pairs in order gives: a later pair overrides an
/// earlier one with the same key.
pub open spec fn map_of_pairs<K, V>(s: Seq<(K, V)>) -> Map<K, V>
    decreases s.len(),
{
    if s.len() == 0 {
        Map::empty()
    } else {
        map_of_pairs(s.drop_last()).insert(s.last().0, s.last().1)
    }
}

/// A map of copies of the pairs, inserted in order (a later pair overrides an
/// earlier one with the same key).
pub fn map_from_list<K: Clone + Eq + Hash, V: Clone>(list: &[(K, V)]) -> (m: HashMap<K, V>)
    ensures
        obeys_key_model::<K>() ==> exists|copies: Seq<(K, V)>|
            {
                &&& copies.len() == list@.len()
                &&& forall|i: int|
                    0 <= i < list@.len() ==> cloned(list@[i].0, #[trigger] copies[i].0) && cloned(
                        list@[i].1,
                        copies[i].1,
                    )
                &&& m@ == map_of_pairs(copies)
            },
{
    let mut m: HashMap<K, V> = HashMap::new();
    let ghost mut copies: Seq<(K, V)> = Seq::empty();
    let n = list.len();
    for i in 0..n
        invariant
            n == list@.len(),
            copies.len() == i,
            forall|j: int|
                #![trigger copies[j]]
                0 <= j < i ==> cloned(list@[j].0, copies[j].0) && cloned(list@[j].1, copies[j].1),
            obeys_key_model::<K>() ==> m@ == map_of_pairs(copies),
    {
        let k = list[i].0.clone();
        let v = list[i].1.clone();
        assert(cloned(list@[i as int].0, k));
        assert(cloned(list@[i as int].1, v));
        let ghost before = copies;
        proof {
            copies = copies.push((k, v));
        }
        assert(copies.drop_last() =~= before);
        assert(forall|j: int| 0 <= j < i ==> #[trigger] copies[j] == before[j]);
        m.insert(k, v);
    }
    m
}

} // verus!
