use avalon_rs::game::{deal, Alliance, Assignment, DealError, Role, SeeingBy};
use itertools::join;

const POOL: [Role; 10] = [
    Role::Merlin,
    Role::Assassin,
    Role::Percival,
    Role::Morgana,
    Role::Loyal,
    Role::Loyal,
    Role::Oberon,
    Role::Loyal,
    Role::Loyal,
    Role::Mordred,
];

const ALL: [Role; 7] = [
    Role::Assassin,
    Role::Merlin,
    Role::Mordred,
    Role::Morgana,
    Role::Oberon,
    Role::Percival,
    Role::Loyal,
];

fn count(roles: &[Role], r: Role) -> usize {
    roles.iter().filter(|x| **x == r).count()
}

fn table(roles: &[Role]) -> Assignment {
    let names = ["a", "b", "c", "d", "e", "f", "g", "h", "i", "j"];
    Assignment {
        players: roles
            .iter()
            .enumerate()
            .map(|(i, r)| (names[i].to_owned(), *r))
            .collect(),
    }
}

#[test]
fn test_join() {
    let str_list: &[&str] = &["hello", "world"];
    assert_eq!("hello world".to_owned(), join(str_list.iter(), " "));

    assert_eq!(
        "hello world".to_owned(),
        join(vec!["hello".to_owned(), "world".to_owned()].iter(), " "),
    );
}

#[test]
fn deal_plays_the_pool_prefix() {
    for n in 5..=10 {
        let roles = deal(n).unwrap();
        assert_eq!(roles.len(), n);
        for r in ALL.iter() {
            assert_eq!(count(&roles, *r), count(&POOL[..n], *r));
        }
    }
}

#[test]
fn deal_five_has_merlin_assassin_percival_morgana_loyal() {
    let roles = deal(5).unwrap();
    assert_eq!(count(&roles, Role::Merlin), 1);
    assert_eq!(count(&roles, Role::Assassin), 1);
    assert_eq!(count(&roles, Role::Percival), 1);
    assert_eq!(count(&roles, Role::Morgana), 1);
    assert_eq!(count(&roles, Role::Loyal), 1);
    assert_eq!(count(&roles, Role::Mordred), 0);
}

#[test]
fn deal_rejects_bad_counts() {
    for n in [0usize, 1, 4, 11, 100] {
        assert_eq!(deal(n), Err(DealError::InvalidPlayerCount(n)));
    }
}

#[test]
fn alliances() {
    assert_eq!(Role::Merlin.alliance(), Alliance::Resistance);
    assert_eq!(Role::Percival.alliance(), Alliance::Resistance);
    assert_eq!(Role::Loyal.alliance(), Alliance::Resistance);
    assert_eq!(Role::Assassin.alliance(), Alliance::Spy);
    assert_eq!(Role::Mordred.alliance(), Alliance::Spy);
    assert_eq!(Role::Morgana.alliance(), Alliance::Spy);
    assert_eq!(Role::Oberon.alliance(), Alliance::Spy);
}

#[test]
fn role_names() {
    assert_eq!(Role::Merlin.name(), "梅林");
    assert_eq!(Role::Assassin.name(), "刺客");
    assert_eq!(Role::Loyal.name(), "忠臣");
}

#[test]
fn new_seats_names_in_order() {
    let names: Vec<String> = ["p", "q", "r", "s", "t", "u"].iter().map(|s| s.to_string()).collect();
    let a = Assignment::new(names.clone()).unwrap();
    assert_eq!(a.player_number(), 6);
    let roles: Vec<Role> = a.players.iter().map(|p| p.1).collect();
    for r in ALL.iter() {
        assert_eq!(count(&roles, *r), count(&POOL[..6], *r));
    }
    for i in 0..6 {
        assert_eq!(a.get_player(i).unwrap().0, names[i]);
    }
    assert!(a.get_player(6).is_none());
}

#[test]
fn new_rejects_small_tables() {
    let names: Vec<String> = vec!["x".to_owned(), "y".to_owned()];
    assert!(matches!(Assignment::new(names), Err(DealError::InvalidPlayerCount(2))));
}

#[test]
fn merlin_sees_mordred_as_good() {
    let a = table(&POOL);
    match a.see_from_role(Role::Merlin) {
        SeeingBy::Merlin(good, evil) => {
            let good_seats: Vec<usize> = good.iter().map(|e| e.0).collect();
            let evil_seats: Vec<usize> = evil.iter().map(|e| e.0).collect();
            assert_eq!(good_seats, vec![0, 2, 4, 5, 7, 8, 9]);
            assert_eq!(evil_seats, vec![1, 3, 6]);
            assert!(!evil_seats.contains(&9));
        }
        _ => panic!("Merlin gets two lists"),
    }
}

#[test]
fn percival_sees_merlin_and_morgana() {
    let a = table(&[Role::Loyal, Role::Morgana, Role::Percival, Role::Assassin, Role::Merlin]);
    match a.see_from_role(Role::Percival) {
        SeeingBy::Percival(pair) => {
            assert_eq!(pair, vec![(1, "b".to_owned()), (4, "e".to_owned())]);
        }
        _ => panic!("Percival gets the pair"),
    }
}

#[test]
fn spies_do_not_see_oberon() {
    let a = table(&POOL[..7]);
    match a.see_from_role(Role::Assassin) {
        SeeingBy::Spy(spies) => {
            let seats: Vec<usize> = spies.iter().map(|e| e.0).collect();
            assert_eq!(seats, vec![1, 3]);
        }
        _ => panic!("spies see each other"),
    }
}

#[test]
fn oberon_and_loyal_see_nothing() {
    let a = table(&POOL[..7]);
    assert!(matches!(a.see_from_role(Role::Oberon), SeeingBy::Normal));
    assert!(matches!(a.see_from_role(Role::Loyal), SeeingBy::Normal));
    assert_eq!(a.see_from_role(Role::Loyal).text(), "");
}

#[test]
fn texts_name_the_seats() {
    let a = table(&POOL[..5]);
    assert_eq!(a.see_from_role(Role::Assassin).text(), "b、d 都是坏人");
    assert_eq!(a.see_from_role(Role::Assassin).text_from_player(1), "你、d 都是坏人");
    assert_eq!(
        a.see_from_role(Role::Merlin).text_from_player(0),
        "你、c、e 都是好人\nb、d 都是坏人"
    );
    assert_eq!(
        a.see_from_role(Role::Percival).text_from_player(2),
        "a 和 d 当中有一个是梅林，另一个是莫甘娜"
    );
}
