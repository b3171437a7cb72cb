//! The clique and celebrity-clique predicates over a party of persons, and
//! the exhaustive search for the (unique) celebrity clique.

use vstd::prelude::*;

use crate::binomial::two_pow;
use crate::person::Member;
use crate::person::Person;
use crate::person::member_knows;
use crate::power::power_set;

verus! {

/// The members (viewed mathematically) of a sequence of persons.
pub open spec fn members_of(s: Seq<Person>) -> Set<Member> {
    s.map_values(|p: Person| p@).to_set()
}

/// No two persons of the sequence share an id.
pub open spec fn unique_ids(s: Seq<Person>) -> bool {
    forall|i1: int, i2: int|
        #![trigger s[i1], s[i2]]
        0 <= i1 < i2 < s.len() ==> s[i1].id != s[i2].id
}

/// Members with equal ids are the same member.
pub open spec fn member_ids_unique(s: Set<Member>) -> bool {
    forall|a: Member, b: Member|
        #![trigger s.contains(a), s.contains(b)]
        s.contains(a) && s.contains(b) && a.id == b.id ==> a == b
}

/// Some member of the set carries the given id.
pub open spec fn has_id(c: Set<Member>, id: usize) -> bool {
    exists|m: Member| #[trigger] c.contains(m) && m.id == id
}

/// A clique: every member knows every other member; self-knowledge is free.
/// The empty set and every singleton are cliques.
pub open spec fn is_clique_spec(c: Set<Member>) -> bool {
    forall|a: Member, b: Member|
        #![trigger c.contains(a), c.contains(b)]
        c.contains(a) && c.contains(b) ==> member_knows(a, b)
}

/// What must hold of a party member p and a candidate celebrity m: p knows
/// m, and if m knows p back then p's id is itself in the candidate set.
pub open spec fn pair_ok(p: Member, m: Member, c: Set<Member>) -> bool {
    member_knows(p, m) && (member_knows(m, p) ==> has_id(c, p.id))
}

/// A celebrity clique with respect to the party: everyone at the party knows
/// every member of c, and a member of c knows someone at the party only if
/// that someone is itself in c (by id).
pub open spec fn is_cclique_spec(c: Set<Member>, party: Set<Member>) -> bool {
    forall|p: Member, m: Member|
        #![trigger party.contains(p), c.contains(m)]
        party.contains(p) && c.contains(m) ==> pair_ok(p, m, c)
}

/// What the exhaustive search promises for a given party: a present result
/// is a finite, non-empty celebrity clique drawn from the party, and an
/// absent result means no such subset exists at all.
pub open spec fn search_outcome_ok(party: Set<Member>, r: Option<Set<Member>>) -> bool {
    match r {
        Some(c) => {
            &&& c.subset_of(party)
            &&& c.finite()
            &&& c != Set::<Member>::empty()
            &&& is_cclique_spec(c, party)
        },
        None => forall|c: Set<Member>|
            #[trigger] c.subset_of(party) && c.finite() && c != Set::<Member>::empty()
                ==> !is_cclique_spec(c, party),
    }
}

/// A set of persons that can be asked whether it is a clique, whether it is
/// a celebrity clique at a party, and for its party's celebrity clique.
pub trait Clique: Sized {
    /// The members of this collection, viewed mathematically.
    spec fn member_set(&self) -> Set<Member>;

    /// No id occurs twice.
    spec fn distinct_ids(&self) -> bool;

    /// Small enough for the exhaustive power-set search.
    spec fn search_feasible(&self) -> bool;

    /// A clique is a set in which all members know each other.
    fn is_clique(&self) -> (r: bool)
        ensures
            r == is_clique_spec(self.member_set()),
    ;

    /// A celebrity clique `C` is a set in which everybody at the party knows
    /// every member of `C`, but members of `C` know only each other.
    fn is_cclique(&self, party: &Self) -> (r: bool)
        ensures
            r == is_cclique_spec(self.member_set(), party.member_set()),
    ;

    /// Exhaustive search for the celebrity clique over the whole power set,
    /// the empty subset skipped; there is at most one answer.
    fn cclique(&self) -> (r: Option<Self>)
        requires
            self.distinct_ids(),
            self.search_feasible(),
        ensures
            r matches Some(c) ==> c.distinct_ids() && search_outcome_ok(
                self.member_set(),
                Some(c.member_set()),
            ),
            r is None ==> search_outcome_ok(self.member_set(), None::<Set<Member>>),
    ;
}

/// The member view of the person at index i belongs to the member set.
pub proof fn lemma_members_at(s: Seq<Person>, i: int)
    requires
        0 <= i < s.len(),
    ensures
        members_of(s).contains(s[i]@),
{
    let mapped = s.map_values(|p: Person| p@);
    assert(mapped[i] == s[i]@);
    assert(mapped.contains(s[i]@));
}

/// Each member of the member set is the view of some person of the sequence.
pub proof fn lemma_members_wit(s: Seq<Person>, m: Member)
    requires
        members_of(s).contains(m),
    ensures
        exists|i: int| 0 <= i < s.len() && (#[trigger] s[i])@ == m,
{
    let mapped = s.map_values(|p: Person| p@);
    assert(mapped.contains(m));
    let i = choose|i: int| 0 <= i < mapped.len() && mapped[i] == m;
    assert(s[i]@ == m);
}

/// A sequence of persons with pairwise-distinct ids yields a member set in
/// which an id determines the member.
pub proof fn lemma_unique_ids_members(s: Seq<Person>)
    requires
        unique_ids(s),
    ensures
        member_ids_unique(members_of(s)),
{
    assert forall|a: Member, b: Member|
        members_of(s).contains(a) && members_of(s).contains(b) && a.id == b.id implies a == b by {
        lemma_members_wit(s, a);
        lemma_members_wit(s, b);
        let i1 = choose|i: int| 0 <= i < s.len() && (#[trigger] s[i])@ == a;
        let i2 = choose|i: int| 0 <= i < s.len() && (#[trigger] s[i])@ == b;
        assert(s[i1]@.id == s[i1].id && s[i2]@.id == s[i2].id);
        if i1 != i2 {
            assert(s[i1].id != s[i2].id);
        }
    }
}

/// The empty set and every singleton are cliques.
pub proof fn lemma_trivial_cliques(m: Member)
    ensures
        is_clique_spec(Set::<Member>::empty()),
        is_clique_spec(Set::<Member>::empty().insert(m)),
{
    assert forall|a: Member, b: Member|
        Set::<Member>::empty().insert(m).contains(a) && Set::<Member>::empty().insert(m).contains(
            b,
        ) implies member_knows(a, b) by {
        assert(a == m && b == m);
    }
}

/// Every celebrity clique is a clique.
pub proof fn lemma_cclique_is_clique(c: Set<Member>, party: Set<Member>)
    requires
        c.subset_of(party),
        is_cclique_spec(c, party),
    ensures
        is_clique_spec(c),
{
    assert forall|a: Member, b: Member| c.contains(a) && c.contains(b) implies member_knows(
        a,
        b,
    ) by {
        assert(party.contains(a));
    }
}

/// Uniqueness: a party with distinct ids admits at most one non-empty
/// celebrity clique.
pub proof fn lemma_cclique_unique(c1: Set<Member>, c2: Set<Member>, party: Set<Member>)
    requires
        member_ids_unique(party),
        c1.subset_of(party),
        c2.subset_of(party),
        c1 != Set::<Member>::empty(),
        c2 != Set::<Member>::empty(),
        is_cclique_spec(c1, party),
        is_cclique_spec(c2, party),
    ensures
        c1 == c2,
{
    lemma_nonempty_witness(c1);
    lemma_nonempty_witness(c2);
    lemma_cclique_subset(c1, c2, party);
    lemma_cclique_subset(c2, c1, party);
    assert(c1 =~= c2);
}

/// From a non-empty set, some member can be produced.
proof fn lemma_nonempty_witness(c: Set<Member>)
    requires
        c != Set::<Member>::empty(),
    ensures
        exists|m: Member| c.contains(m),
{
    if forall|m: Member| !(#[trigger] c.contains(m)) {
        assert(c =~= Set::<Member>::empty());
    }
}

/// One direction of the uniqueness argument: everything in c2 lies in c1.
proof fn lemma_cclique_subset(c1: Set<Member>, c2: Set<Member>, party: Set<Member>)
    requires
        member_ids_unique(party),
        c1.subset_of(party),
        c2.subset_of(party),
        exists|m: Member| c1.contains(m),
        is_cclique_spec(c1, party),
        is_cclique_spec(c2, party),
    ensures
        c2.subset_of(c1),
{
    let x1 = choose|m: Member| c1.contains(m);
    assert forall|y: Member| c2.contains(y) implies c1.contains(y) by {
        // everyone at the party knows y, in particular x1 does
        assert(party.contains(x1));
        assert(member_knows(x1, y));
        // x1 is a celebrity of c1 and knows y at the party, so y's id is in c1
        assert(party.contains(y));
        assert(c1.contains(x1));
        assert(has_id(c1, y.id));
        let z = choose|m: Member| #[trigger] c1.contains(m) && m.id == y.id;
        assert(party.contains(z));
        assert(z == y);
    }
}

/// Running the search twice on one party yields the same result: either both
/// runs fail, or both return the one celebrity clique.
pub proof fn lemma_search_idempotent(
    party: Seq<Person>,
    r1: Option<Set<Member>>,
    r2: Option<Set<Member>>,
)
    requires
        unique_ids(party),
        search_outcome_ok(members_of(party), r1),
        search_outcome_ok(members_of(party), r2),
    ensures
        r1 is Some <==> r2 is Some,
        r1 matches Some(a) ==> (r2 matches Some(b) ==> a == b),
{
    lemma_unique_ids_members(party);
    let ms = members_of(party);
    if r1 is Some && r2 is Some {
        lemma_cclique_unique(r1->Some_0, r2->Some_0, ms);
    }
    if r1 is Some && r2 is None {
        assert(!is_cclique_spec(r1->Some_0, ms));
    }
    if r1 is None && r2 is Some {
        assert(!is_cclique_spec(r2->Some_0, ms));
    }
}

/// The member views selected by a sequence of indices into the party.
pub open spec fn sel_members(s: Seq<Person>, picks: Seq<usize>) -> Set<Member> {
    picks.map_values(|w: usize| s[w as int]@).to_set()
}

/// Linear scan for a person with the given id.
#[verifier::loop_isolation(false)]
fn contains_person_id(v: &Vec<Person>, id: usize) -> (r: bool)
    ensures
        r == has_id(members_of(v@), id),
{
    let mut i: usize = 0;
    while i < v.len()
        invariant
            i <= v@.len(),
            forall|w: int| 0 <= w < i ==> (#[trigger] v@[w]).id != id,
        decreases v@.len() - i,
    {
        if v[i].id == id {
            proof {
                lemma_members_at(v@, i as int);
            }
            return true;
        }
        i += 1;
    }
    proof {
        if has_id(members_of(v@), id) {
            let m = choose|m: Member| #[trigger] members_of(v@).contains(m) && m.id == id;
            lemma_members_wit(v@, m);
            let w = choose|w: int| 0 <= w < v@.len() && (#[trigger] v@[w])@ == m;
            assert(v@[w].id == id);
        }
    }
    false
}

/// Copy out the persons at the given (valid) indices.
#[verifier::loop_isolation(false)]
fn gather(party: &Vec<Person>, pick: &Vec<usize>) -> (r: Vec<Person>)
    requires
        forall|w: int| 0 <= w < pick@.len() ==> (#[trigger] pick@[w]) < party@.len(),
    ensures
        r@.len() == pick@.len(),
        forall|w: int|
            0 <= w < r@.len() ==> (#[trigger] r@[w])@ == party@[pick@[w] as int]@ && r@[w].id
                == party@[pick@[w] as int].id,
{
    let mut r: Vec<Person> = Vec::new();
    let mut i: usize = 0;
    while i < pick.len()
        invariant
            i <= pick@.len(),
            r@.len() == i,
            forall|w: int|
                0 <= w < i ==> (#[trigger] r@[w])@ == party@[pick@[w] as int]@ && r@[w].id
                    == party@[pick@[w] as int].id,
        decreases pick@.len() - i,
    {
        let p = party[pick[i]].clone();
        r.push(p);
        i += 1;
    }
    r
}

impl Clique for Vec<Person> {
    open spec fn member_set(&self) -> Set<Member> {
        members_of(self@)
    }

    open spec fn distinct_ids(&self) -> bool {
        unique_ids(self@)
    }

    open spec fn search_feasible(&self) -> bool {
        self@.len() * two_pow(self@.len()) <= usize::MAX
    }

    /// Check every ordered pair of members for acquaintance.
    #[verifier::loop_isolation(false)]
    fn is_clique(&self) -> (r: bool) {
        let ghost ms = members_of(self@);
        let mut i: usize = 0;
        while i < self.len()
            invariant
                i <= self@.len(),
                forall|a: int, b: int|
                    #![trigger self@[a], self@[b]]
                    0 <= a < i && 0 <= b < self@.len() ==> member_knows(self@[a]@, self@[b]@),
            decreases self@.len() - i,
        {
            let mut w: usize = 0;
            while w < self.len()
                invariant
                    w <= self@.len(),
                    forall|b: int|
                        0 <= b < w ==> member_knows(self@[i as int]@, (#[trigger] self@[b])@),
                decreases self@.len() - w,
            {
                if !self[i].knows(&self[w]) {
                    proof {
                        lemma_members_at(self@, i as int);
                        lemma_members_at(self@, w as int);
                        assert(ms.contains(self@[i as int]@) && ms.contains(self@[w as int]@));
                    }
                    return false;
                }
                w += 1;
            }
            i += 1;
        }
        proof {
            assert forall|a: Member, b: Member| ms.contains(a) && ms.contains(b) implies
                member_knows(a, b) by {
                lemma_members_wit(self@, a);
                lemma_members_wit(self@, b);
                let ia = choose|ii: int| 0 <= ii < self@.len() && (#[trigger] self@[ii])@ == a;
                let ib = choose|ii: int| 0 <= ii < self@.len() && (#[trigger] self@[ii])@ == b;
                assert(member_knows(self@[ia]@, self@[ib]@));
            }
        }
        true
    }

    /// Check every (party member, candidate celebrity) pair, stopping at the
    /// first violation.
    #[verifier::loop_isolation(false)]
    fn is_cclique(&self, party: &Self) -> (r: bool) {
        let ghost cs = members_of(self@);
        let ghost ps = members_of(party@);
        let mut i: usize = 0;
        while i < party.len()
            invariant
                i <= party@.len(),
                forall|a: int, b: int|
                    #![trigger party@[a], self@[b]]
                    0 <= a < i && 0 <= b < self@.len() ==> pair_ok(party@[a]@, self@[b]@, cs),
            decreases party@.len() - i,
        {
            let mut w: usize = 0;
            while w < self.len()
                invariant
                    w <= self@.len(),
                    forall|b: int|
                        0 <= b < w ==> pair_ok(party@[i as int]@, (#[trigger] self@[b])@, cs),
                decreases self@.len() - w,
            {
                if !party[i].knows(&self[w]) || (self[w].knows(&party[i]) && !contains_person_id(
                    self,
                    party[i].id,
                )) {
                    proof {
                        lemma_members_at(party@, i as int);
                        lemma_members_at(self@, w as int);
                        assert(ps.contains(party@[i as int]@) && cs.contains(self@[w as int]@));
                        assert(!pair_ok(party@[i as int]@, self@[w as int]@, cs));
                    }
                    return false;
                }
                w += 1;
            }
            i += 1;
        }
        proof {
            assert forall|p: Member, m: Member| ps.contains(p) && cs.contains(m) implies pair_ok(
                p,
                m,
                cs,
            ) by {
                lemma_members_wit(party@, p);
                lemma_members_wit(self@, m);
                let ia = choose|ii: int| 0 <= ii < party@.len() && (#[trigger] party@[ii])@ == p;
                let ib = choose|ii: int| 0 <= ii < self@.len() && (#[trigger] self@[ii])@ == m;
                assert(pair_ok(party@[ia]@, self@[ib]@, cs));
            }
        }
        true
    }

    /// Enumerate the power set of the party in cardinality order, skip the
    /// empty subset, and return the first celebrity clique found.
    #[verifier::loop_isolation(false)]
    fn cclique(&self) -> (r: Option<Self>) {
        let ghost ms = members_of(self@);
        let n = self.len();
        let mut idx: Vec<usize> = Vec::new();
        let mut i: usize = 0;
        while i < n
            invariant
                i <= n,
                idx@.len() == i,
                forall|w: int| 0 <= w < i ==> (#[trigger] idx@[w]) == w,
            decreases n - i,
        {
            idx.push(i);
            i += 1;
        }
        proof {
            assert(idx@.no_duplicates());
        }
        let subsets = power_set(&idx);
        let ghost subs = subsets@;
        proof {
            crate::binomial::lemma_two_pow_pos(idx@.len());
        }
        let mut t: usize = 1;
        while t < subsets.len()
            invariant
                1 <= t <= subs.len(),
                subsets@ == subs,
                forall|tt: int|
                    1 <= tt < t ==> !is_cclique_spec(
                        sel_members(self@, (#[trigger] subs[tt])@),
                        ms,
                    ),
            decreases subs.len() - t,
        {
            let ghost pick = subs[t as int]@;
            proof {
                assert forall|w: int| 0 <= w < pick.len() implies (#[trigger] pick[w])
                    < self@.len() by {
                    assert(pick.contains(pick[w]));
                    assert(pick.to_set().contains(pick[w]));
                    assert(idx@.to_set().contains(pick[w]));
                    let u = choose|u: int| 0 <= u < idx@.len() && idx@[u] == pick[w];
                    assert(idx@[u] == u);
                }
            }
            let cand = gather(self, &subsets[t]);
            proof {
                assert(cand@.map_values(|p: Person| p@) =~= pick.map_values(
                    |w: usize| self@[w as int]@,
                ));
                assert(members_of(cand@) == sel_members(self@, pick));
            }
            if cand.is_cclique(self) {
                proof {
                    // the picked indices are pairwise distinct, so the ids are
                    assert(unique_ids(cand@)) by {
                        assert forall|w1: int, w2: int|
                            #![trigger cand@[w1], cand@[w2]]
                            0 <= w1 < w2 < cand@.len() implies cand@[w1].id != cand@[w2].id by {
                            assert(pick[w1] != pick[w2]);
                            if pick[w1] < pick[w2] {
                                assert(self@[pick[w1] as int].id != self@[pick[w2] as int].id);
                            } else {
                                assert(self@[pick[w2] as int].id != self@[pick[w1] as int].id);
                            }
                        }
                    }
                    // every chosen person is a member of the party
                    assert(members_of(cand@).subset_of(ms)) by {
                        assert forall|m: Member| members_of(cand@).contains(m) implies ms.contains(
                            m,
                        ) by {
                            lemma_members_wit(cand@, m);
                            let w = choose|w: int|
                                0 <= w < cand@.len() && (#[trigger] cand@[w])@ == m;
                            lemma_members_at(self@, pick[w] as int);
                        }
                    }
                    // a subset tried after the first is never the empty one
                    assert(members_of(cand@) != Set::<Member>::empty()) by {
                        assert(subs[0]@.to_set() =~= Set::<usize>::empty());
                        assert(subs[t as int]@.to_set() != subs[0]@.to_set());
                        if pick.len() == 0 {
                            assert(pick.to_set() =~= Set::<usize>::empty());
                        }
                        assert(pick.len() > 0);
                        lemma_members_at(cand@, 0);
                        assert(members_of(cand@).contains(cand@[0]@));
                        assert(!Set::<Member>::empty().contains(cand@[0]@));
                    }
                }
                return Some(cand);
            }
            t += 1;
        }
        proof {
            assert forall|c: Set<Member>|
                #[trigger] c.subset_of(ms) && c.finite() && c != Set::<Member>::empty() implies
                !is_cclique_spec(c, ms) by {
                if is_cclique_spec(c, ms) {
                    let iset = Set::new(|w: usize| w < n && c.contains(self@[w as int]@));
                    assert(iset.subset_of(idx@.to_set())) by {
                        assert forall|w: usize| iset.contains(w) implies idx@.to_set().contains(
                            w,
                        ) by {
                            assert(idx@[w as int] == w);
                            assert(idx@.contains(w));
                        }
                    }
                    vstd::set_lib::lemma_len_subset(iset, idx@.to_set());
                    let tt = choose|tt: int|
                        0 <= tt < subs.len() && (#[trigger] subs[tt])@.to_set() == iset;
                    assert(sel_members(self@, subs[tt]@) =~= c) by {
                        let pickt = subs[tt]@;
                        assert forall|m: Member| sel_members(self@, pickt).contains(m) implies
                            c.contains(m) by {
                            let mapped = pickt.map_values(|w: usize| self@[w as int]@);
                            assert(mapped.contains(m));
                            let u = choose|u: int| 0 <= u < mapped.len() && mapped[u] == m;
                            assert(mapped[u] == self@[pickt[u] as int]@);
                            assert(pickt.contains(pickt[u]));
                            assert(pickt.to_set().contains(pickt[u]));
                            assert(iset.contains(pickt[u]));
                        }
                        assert forall|m: Member| c.contains(m) implies sel_members(
                            self@,
                            pickt,
                        ).contains(m) by {
                            lemma_members_wit(self@, m);
                            let i0 = choose|ii: int|
                                0 <= ii < self@.len() && (#[trigger] self@[ii])@ == m;
                            let w = i0 as usize;
                            assert(iset.contains(w));
                            assert(pickt.to_set().contains(w));
                            assert(pickt.contains(w));
                            let u = choose|u: int| 0 <= u < pickt.len() && pickt[u] == w;
                            let mapped = pickt.map_values(|ww: usize| self@[ww as int]@);
                            assert(mapped[u] == self@[w as int]@);
                            assert(mapped.contains(m));
                        }
                    }
                    // a non-empty set picks a non-empty index set, so tt > 0
                    lemma_nonempty_witness(c);
                    let m0 = choose|m: Member| c.contains(m);
                    lemma_members_wit(self@, m0);
                    let i0 = choose|ii: int| 0 <= ii < self@.len() && (#[trigger] self@[ii])@ == m0;
                    assert(iset.contains(i0 as usize));
                    assert(subs[0]@.to_set() =~= Set::<usize>::empty());
                    assert(tt != 0);
                    assert(!is_cclique_spec(sel_members(self@, subs[tt]@), ms));
                }
            }
        }
        None
    }
}

/// The entries with their known-id lists viewed as sequences.
pub open spec fn entry_views(entries: Seq<(usize, Vec<usize>)>) -> Seq<(usize, Seq<usize>)> {
    entries.map_values(|e: (usize, Vec<usize>)| (e.0, e.1@))
}

/// The association an entry list denotes: each id maps to its normalized
/// known set (self-reference removed), later entries overwriting earlier.
pub open spec fn party_map(entries: Seq<(usize, Seq<usize>)>) -> Map<usize, Set<usize>>
    decreases entries.len(),
{
    if entries.len() == 0 {
        Map::<usize, Set<usize>>::empty()
    } else {
        party_map(entries.drop_last()).insert(
            entries.last().0,
            entries.last().1.to_set().remove(entries.last().0),
        )
    }
}

/// Linear scan for the position of a person with the given id.
#[verifier::loop_isolation(false)]
fn find_id(v: &Vec<Person>, id: usize) -> (r: Option<usize>)
    ensures
        match r {
            Some(q) => q < v@.len() && v@[q as int].id == id,
            None => forall|w: int| 0 <= w < v@.len() ==> (#[trigger] v@[w]).id != id,
        },
{
    let mut i: usize = 0;
    while i < v.len()
        invariant
            i <= v@.len(),
            forall|w: int| 0 <= w < i ==> (#[trigger] v@[w]).id != id,
        decreases v@.len() - i,
    {
        if v[i].id == id {
            return Some(i);
        }
        i += 1;
    }
    None
}

/// Construct a party from raw (id, known ids) pairs. Each person is
/// normalized as by Person::from; a duplicate id overwrites the earlier
/// entry, as in an unordered set keyed by id.
#[verifier::loop_isolation(false)]
pub fn build_party(entries: Vec<(usize, Vec<usize>)>) -> (r: Vec<Person>)
    ensures
        unique_ids(r@),
        forall|w: int| 0 <= w < r@.len() ==> (#[trigger] r@[w]).wf(),
        forall|w: int|
            0 <= w < r@.len() ==> party_map(entry_views(entries@)).contains_key(
                (#[trigger] r@[w]).id,
            ) && r@[w]@.known == party_map(entry_views(entries@))[r@[w].id],
        forall|id: usize|
            #[trigger] party_map(entry_views(entries@)).contains_key(id) ==> exists|w: int|
                0 <= w < r@.len() && (#[trigger] r@[w]).id == id,
{
    let ghost evs = entry_views(entries@);
    let mut rest = entries;
    let ghost all = rest@;
    let total = rest.len();
    proof {
        assert(all.len() == total);
    }
    let mut r: Vec<Person> = Vec::new();
    let mut done: usize = 0;
    while rest.len() > 0
        invariant
            done <= all.len(),
            all.len() <= usize::MAX,
            rest@ == all.skip(done as int),
            unique_ids(r@),
            forall|w: int| 0 <= w < r@.len() ==> (#[trigger] r@[w]).wf(),
            forall|w: int|
                0 <= w < r@.len() ==> party_map(evs.take(done as int)).contains_key(
                    (#[trigger] r@[w]).id,
                ) && r@[w]@.known == party_map(evs.take(done as int))[r@[w].id],
            forall|id: usize|
                #[trigger] party_map(evs.take(done as int)).contains_key(id) ==> exists|w: int|
                    0 <= w < r@.len() && (#[trigger] r@[w]).id == id,
        decreases rest@.len(),
    {
        let ghost r_old = r@;
        let ghost pm = party_map(evs.take(done as int));
        let entry = rest.remove(0);
        proof {
            assert(all.skip(done as int)[0] == all[done as int]);
            assert(rest@ =~= all.skip(done as int + 1));
        }
        let (id0, known0) = entry;
        let p = Person::from(id0, known0);
        proof {
            assert(evs[done as int] == (all[done as int].0, all[done as int].1@));
            assert(evs.take(done as int + 1) == evs.take(done as int).push(evs[done as int]));
            assert(evs.take(done as int + 1).drop_last() == evs.take(done as int));
            assert(party_map(evs.take(done as int + 1)) == pm.insert(id0, p@.known));
        }
        let ghost pm1 = party_map(evs.take(done as int + 1));
        match find_id(&r, p.id) {
            Some(q) => {
                let ghost r_mid = r@;
                r.remove(q);
                proof {
                    assert forall|w: int| 0 <= w < r@.len() implies (#[trigger] r@[w]).id
                        != id0 by {
                        if w < q {
                            assert(r@[w] == r_mid[w]);
                            assert(r_mid[w].id != r_mid[q as int].id);
                        } else {
                            assert(r@[w] == r_mid[w + 1]);
                            assert(r_mid[q as int].id != r_mid[w + 1].id);
                        }
                    }
                    assert(unique_ids(r@)) by {
                        assert forall|w1: int, w2: int|
                            #![trigger r@[w1], r@[w2]]
                            0 <= w1 < w2 < r@.len() implies r@[w1].id != r@[w2].id by {
                            let o1 = if w1 < q { w1 } else { w1 + 1 };
                            let o2 = if w2 < q { w2 } else { w2 + 1 };
                            assert(r@[w1] == r_mid[o1] && r@[w2] == r_mid[o2]);
                        }
                    }
                    assert forall|w: int| 0 <= w < r@.len() implies (#[trigger] r@[w]).wf()
                        && pm.contains_key(r@[w].id) && r@[w]@.known == pm[r@[w].id] by {
                        let o = if w < q { w } else { w + 1 };
                        assert(r@[w] == r_mid[o]);
                    }
                    assert forall|id: usize|
                        pm.contains_key(id) && id != id0 implies exists|w: int|
                            0 <= w < r@.len() && (#[trigger] r@[w]).id == id by {
                        let w0 = choose|w: int|
                            0 <= w < r_mid.len() && (#[trigger] r_mid[w]).id == id;
                        assert(w0 != q);
                        let o = if w0 < q { w0 } else { w0 - 1 };
                        assert(r@[o] == r_mid[w0]);
                    }
                }
            },
            None => {},
        }
        let ghost r_cut = r@;
        r.push(p);
        proof {
            assert forall|w: int| 0 <= w < r_cut.len() implies (#[trigger] r_cut[w]).id != id0 by {}
            assert(unique_ids(r@)) by {
                assert forall|w1: int, w2: int|
                    #![trigger r@[w1], r@[w2]]
                    0 <= w1 < w2 < r@.len() implies r@[w1].id != r@[w2].id by {
                    if w2 == r_cut.len() {
                        assert(r@[w1] == r_cut[w1] && r@[w2] == p);
                    } else {
                        assert(r@[w1] == r_cut[w1] && r@[w2] == r_cut[w2]);
                    }
                }
            }
            assert forall|w: int| 0 <= w < r@.len() implies (#[trigger] r@[w]).wf()
                && pm1.contains_key(r@[w].id) && r@[w]@.known == pm1[r@[w].id] by {
                if w < r_cut.len() {
                    assert(r@[w] == r_cut[w]);
                    assert(r@[w].id != id0);
                } else {
                    assert(r@[w] == p);
                }
            }
            assert forall|id: usize| #[trigger] pm1.contains_key(id) implies exists|w: int|
                0 <= w < r@.len() && (#[trigger] r@[w]).id == id by {
                if id == id0 {
                    assert(r@[r_cut.len() as int].id == id);
                } else {
                    assert(pm.contains_key(id));
                    let wc = choose|w: int|
                        0 <= w < r_cut.len() && (#[trigger] r_cut[w]).id == id;
                    assert(r@[wc] == r_cut[wc]);
                }
            }
        }
        done += 1;
    }
    proof {
        assert(evs.take(all.len() as int) == evs);
    }
    r
}

/// Exhaustive search for the unique celebrity clique of a party: the first
/// non-empty subset of the power set that is a celebrity clique, if any.
pub fn find_celebrity_clique(party: &Vec<Person>) -> (r: Option<Vec<Person>>)
    requires
        unique_ids(party@),
        party@.len() * two_pow(party@.len()) <= usize::MAX,
    ensures
        r matches Some(c) ==> unique_ids(c@) && search_outcome_ok(
            members_of(party@),
            Some(members_of(c@)),
        ),
        r is None ==> search_outcome_ok(members_of(party@), None::<Set<Member>>),
{
    party.cclique()
}

} // verus!
