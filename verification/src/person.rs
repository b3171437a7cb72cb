//! The relation model: a person's identity and the set of other persons it
//! directly acknowledges knowing, with the reflexive "knows" test.

use vstd::prelude::*;

verus! {

broadcast use vstd::prelude::Seq::lemma_push_to_set_commute;

/// Mathematical view of a person: an identity and the set of other
/// identities it acknowledges knowing.
pub struct Member {
    pub id: usize,
    pub known: Set<usize>,
}

/// The knowledge relation: `a` knows `b` if they are the same person (by id)
/// or `b`'s id is among the people `a` acknowledges. Reflexive by definition,
/// not assumed symmetric.
pub open spec fn member_knows(a: Member, b: Member) -> bool {
    a.id == b.id || a.known.contains(b.id)
}

/// A party member: a unique identity and the ids of the other members it
/// directly acknowledges knowing.
pub struct Person {
    pub id: usize,
    pub known_people: Vec<usize>,
}

impl View for Person {
    type V = Member;

    open spec fn view(&self) -> Member {
        Member { id: self.id, known: self.known_people@.to_set() }
    }
}

/// Linear membership scan over a vector of ids.
pub fn contains_id(v: &Vec<usize>, x: usize) -> (r: bool)
    ensures
        r == v@.contains(x),
{
    let mut i: usize = 0;
    while i < v.len()
        invariant
            i <= v@.len(),
            forall|j: int| 0 <= j < i ==> v@[j] != x,
        decreases v@.len() - i,
    {
        if v[i] == x {
            return true;
        }
        i += 1;
    }
    false
}

impl Person {
    /// A person never lists itself among its acquaintances, and lists no
    /// acquaintance twice.
    pub open spec fn wf(self) -> bool {
        &&& self.known_people@.no_duplicates()
        &&& !self.known_people@.contains(self.id)
    }

    /// `self` knows `other` iff they share an id or `other`'s id is among
    /// `self`'s acknowledged acquaintances.
    pub fn knows(&self, other: &Self) -> (r: bool)
        ensures
            r == member_knows(self@, other@),
    {
        self.id == other.id || contains_id(&self.known_people, other.id)
    }

    /// Construct a person from an id and a raw list of known ids: any
    /// self-reference is removed, and duplicates collapse, as in a set.
    pub fn from(id: usize, known: Vec<usize>) -> (r: Person)
        ensures
            r.id == id,
            r.wf(),
            r@.known == known@.to_set().remove(id),
    {
        let ghost all = known@;
        let mut kp: Vec<usize> = Vec::new();
        let mut i: usize = 0;
        while i < known.len()
            invariant
                i <= all.len(),
                known@ == all,
                kp@.no_duplicates(),
                !kp@.contains(id),
                kp@.to_set() == all.take(i as int).to_set().remove(id),
        decreases all.len() - i,
        {
            let k = known[i];
            let ghost pre = kp@;
            if k != id && !contains_id(&kp, k) {
                kp.push(k);
                proof {
                    assert(kp@ == pre.push(k));
                }
            }
            proof {
                assert(all.take(i + 1) == all.take(i as int).push(all[i as int]));
                assert(kp@.to_set() =~= all.take(i + 1).to_set().remove(id));
            }
            i += 1;
        }
        proof {
            assert(all.take(all.len() as int) == all);
        }
        Person { id, known_people: kp }
    }
}

impl Clone for Person {
    /// Copying a person copies its id and its known set.
    fn clone(&self) -> (r: Self)
        ensures
            r@ == self@,
            r.id == self.id,
            r.known_people@ == self.known_people@,
    {
        let mut kp: Vec<usize> = Vec::new();
        let mut i: usize = 0;
        while i < self.known_people.len()
            invariant
                i <= self.known_people@.len(),
                kp@ == self.known_people@.take(i as int),
            decreases self.known_people@.len() - i,
        {
            kp.push(self.known_people[i]);
            proof {
                assert(self.known_people@.take(i + 1)
                    == self.known_people@.take(i as int).push(self.known_people@[i as int]));
            }
            i += 1;
        }
        proof {
            assert(self.known_people@.take(self.known_people@.len() as int)
                == self.known_people@);
        }
        Person { id: self.id, known_people: kp }
    }
}

} // verus!
