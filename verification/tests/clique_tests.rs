use celebrity_clique::binomial::binomial_approx;
use celebrity_clique::clique::Clique;
use celebrity_clique::clique::build_party;
use celebrity_clique::clique::find_celebrity_clique;
use celebrity_clique::person::Person;
use celebrity_clique::power::power_set;

fn sample_party() -> Vec<Person> {
    build_party(vec![
        (1, vec![1, 2, 3]),
        (2, vec![1, 3]),
        (3, vec![1, 2]),
        (4, vec![1, 2, 3, 42]),
        (5, vec![1, 2, 3, 4, 5]),
        (6, vec![1, 2, 3, 7]),
        (7, vec![1, 2, 3, 5, 6]),
    ])
}

fn sorted_ids(people: &[Person]) -> Vec<usize> {
    let mut ids: Vec<usize> = people.iter().map(|p| p.id).collect();
    ids.sort();
    ids
}

#[test]
fn test_power_set() {
    let empty: Vec<i32> = vec![];
    println!("{:?}", power_set(&empty).len());
    println!("{:?}", power_set(&vec![1]).len());
    println!("{:?}", power_set(&vec![1, 2, 3]).len());
    println!("{:?}", power_set(&vec![1, 2, 3, 4, 5]).len());
}

#[test]
fn test_binomial_approx() {
    for n in 1..=3 {
        for k in 1..=3 {
            println!("({n}, {k}): {}", binomial_approx(n, k));
        }
    }
}

#[test]
fn test_power_set_sizes() {
    let empty: Vec<i32> = vec![];
    assert_eq!(power_set(&empty).len(), 1);
    assert_eq!(power_set(&vec![1]).len(), 2);
    assert_eq!(power_set(&vec![1, 2, 3]).len(), 8);
    assert_eq!(power_set(&vec![1, 2, 3, 4, 5]).len(), 32);
}

#[test]
fn test_power_set_cardinality_grouping() {
    let subsets = power_set(&vec![10, 20, 30]);
    let lens: Vec<usize> = subsets.iter().map(|s| s.len()).collect();
    assert_eq!(lens, vec![0, 1, 1, 1, 2, 2, 2, 3]);
    // exactly one empty subset, heading the sequence
    assert!(subsets[0].is_empty());
    // exactly one subset equal to the whole set
    let mut full = subsets[7].clone();
    full.sort();
    assert_eq!(full, vec![10, 20, 30]);
    // all subsets distinct as sets
    let mut keys: Vec<Vec<i32>> = subsets
        .iter()
        .map(|s| {
            let mut t = s.clone();
            t.sort();
            t
        })
        .collect();
    keys.sort();
    keys.dedup();
    assert_eq!(keys.len(), 8);
}

#[test]
fn test_binomial_values() {
    assert_eq!(binomial_approx(0, 0), 1);
    assert_eq!(binomial_approx(4, 0), 1);
    assert_eq!(binomial_approx(4, 4), 1);
    assert_eq!(binomial_approx(3, 5), 0);
    assert_eq!(binomial_approx(5, 2), 10);
    assert_eq!(binomial_approx(6, 3), 20);
    assert_eq!(binomial_approx(10, 5), 252);
}

#[test]
fn test_person_from_normalizes() {
    let p = Person::from(1, vec![1, 2, 2, 3, 1]);
    assert_eq!(p.id, 1);
    assert_eq!(p.known_people, vec![2, 3]);
}

#[test]
fn test_knows_is_reflexive_and_directed() {
    let a = Person::from(1, vec![2]);
    let b = Person::from(2, vec![]);
    assert!(a.knows(&a));
    assert!(b.knows(&b));
    assert!(a.knows(&b));
    assert!(!b.knows(&a));
}

#[test]
fn test_empty_and_singletons_are_cliques() {
    let empty: Vec<Person> = vec![];
    assert!(empty.is_clique());
    let single = vec![Person::from(7, vec![])];
    assert!(single.is_clique());
    let single_sociable = vec![Person::from(7, vec![1, 2, 3])];
    assert!(single_sociable.is_clique());
}

#[test]
fn test_celebrity_clique_found() {
    let party = sample_party();
    let clique = party.cclique().expect("the sample party has a celebrity clique");
    assert_eq!(sorted_ids(&clique), vec![1, 2, 3]);
}

#[test]
fn test_celebrity_clique_is_clique() {
    let party = sample_party();
    let clique = party.cclique().expect("the sample party has a celebrity clique");
    assert!(clique.is_clique());
    assert!(clique.is_cclique(&party));
}

#[test]
fn test_no_celebrity_clique_among_strangers() {
    let party = build_party(vec![(1, vec![]), (2, vec![]), (3, vec![])]);
    assert!(party.cclique().is_none());
}

#[test]
fn test_single_actor_is_its_own_celebrity_clique() {
    let party = build_party(vec![(9, vec![])]);
    let clique = party.cclique().expect("a lone actor is a celebrity clique");
    assert_eq!(sorted_ids(&clique), vec![9]);
}

#[test]
fn test_search_is_idempotent() {
    let party = sample_party();
    let first = party.cclique().map(|c| sorted_ids(&c));
    let second = party.cclique().map(|c| sorted_ids(&c));
    assert_eq!(first, second);
    let strangers = build_party(vec![(1, vec![]), (2, vec![])]);
    assert_eq!(strangers.cclique().is_none(), strangers.cclique().is_none());
}

#[test]
fn test_find_celebrity_clique_interface() {
    let party = sample_party();
    let clique = find_celebrity_clique(&party).expect("the sample party has a celebrity clique");
    assert_eq!(sorted_ids(&clique), vec![1, 2, 3]);
}

#[test]
fn test_build_party_overwrites_duplicate_ids() {
    let party = build_party(vec![(1, vec![2]), (2, vec![]), (1, vec![2, 3])]);
    assert_eq!(party.len(), 2);
    let one = party.iter().find(|p| p.id == 1).expect("id 1 is present");
    let mut known = one.known_people.clone();
    known.sort();
    assert_eq!(known, vec![2, 3]);
}
