use solitaire_ecs::ecs::{CompKind, CompValue, World};
use solitaire_ecs::game::{Card, Deck, FaceUp, Pile, Rank, Suit};

#[test]
fn basic_usage() {
    let mut world = World::new();
    let entity = world.spawn();
    world.add_component(entity, CompValue::Pile(Pile::Foundation(100)));

    // Retrieve the component immutably
    let pile = world.get_component(CompKind::Pile, entity).unwrap();
    assert_eq!(*pile, CompValue::Pile(Pile::Foundation(100)));

    // Modify the component using a system-like closure
    world.for_each(CompKind::Pile, |_e: u32, v: CompValue| match v {
        CompValue::Pile(Pile::Foundation(n)) => CompValue::Pile(Pile::Foundation(n - 50)),
        other => other,
    });
    let pile = world.get_component(CompKind::Pile, entity).unwrap();
    assert_eq!(*pile, CompValue::Pile(Pile::Foundation(50)));
}

#[test]
fn spawn_yields_distinct_increasing_ids() {
    let mut world = World::new();
    let mut last: Option<u32> = None;
    for _ in 0..10 {
        let id = world.spawn();
        if let Some(prev) = last {
            assert!(id > prev);
        }
        last = Some(id);
    }
    assert_eq!(last, Some(9));
}

#[test]
fn attach_then_get_round_trips() {
    let mut world = World::new();
    let e = world.spawn();
    let card = Card::new(Suit::Hearts, Rank::Queen);
    world.add_component(e, CompValue::Card(card));
    assert_eq!(
        world.get_component(CompKind::Card, e),
        Some(&CompValue::Card(card))
    );
}

#[test]
fn attach_overwrites_previous_value() {
    let mut world = World::new();
    let e = world.spawn();
    world.add_component(e, CompValue::FaceUp(FaceUp(false)));
    world.add_component(e, CompValue::FaceUp(FaceUp(true)));
    assert_eq!(
        world.get_component(CompKind::FaceUp, e),
        Some(&CompValue::FaceUp(FaceUp(true)))
    );
}

#[test]
fn kinds_are_isolated() {
    let mut world = World::new();
    let e = world.spawn();
    world.add_component(e, CompValue::Card(Card::new(Suit::Clubs, Rank::Ace)));
    assert!(world.get_component(CompKind::FaceUp, e).is_none());
    assert!(world.get_component(CompKind::Pile, e).is_none());
}

#[test]
fn entities_are_isolated() {
    let mut world = World::new();
    let e1 = world.spawn();
    let e2 = world.spawn();
    world.add_component(e1, CompValue::Pile(Pile::Waste));
    assert!(world.get_component(CompKind::Pile, e2).is_none());
    assert_eq!(
        world.get_component(CompKind::Pile, e1),
        Some(&CompValue::Pile(Pile::Waste))
    );
}

#[test]
fn get_on_fresh_store_is_absent() {
    let world = World::new();
    assert!(world.get_component(CompKind::Card, 0).is_none());
    assert!(world.get_component(CompKind::FaceUp, 7).is_none());
    assert!(world.get_component(CompKind::Pile, 1000).is_none());
}

#[test]
fn get_on_componentless_entity_is_absent() {
    let mut world = World::new();
    let e = world.spawn();
    assert!(world.get_component(CompKind::Card, e).is_none());
    assert!(world.get_component(CompKind::FaceUp, e).is_none());
    assert!(world.get_component(CompKind::Pile, e).is_none());
}

#[test]
fn attach_works_for_unspawned_entities() {
    let mut world = World::new();
    world.add_component(41, CompValue::FaceUp(FaceUp(true)));
    assert_eq!(
        world.get_component(CompKind::FaceUp, 41),
        Some(&CompValue::FaceUp(FaceUp(true)))
    );
}

#[test]
fn get_mut_modifies_in_place() {
    let mut world = World::new();
    let e = world.spawn();
    world.add_component(e, CompValue::FaceUp(FaceUp(false)));
    match world.get_component_mut(CompKind::FaceUp, e) {
        Some(v) => *v = CompValue::FaceUp(FaceUp(true)),
        None => panic!("component should be present"),
    }
    assert_eq!(
        world.get_component(CompKind::FaceUp, e),
        Some(&CompValue::FaceUp(FaceUp(true)))
    );
    assert!(world.get_component_mut(CompKind::Card, e).is_none());
}

#[test]
fn for_each_visits_each_holder_once() {
    let mut world = World::new();
    let mut entities: Vec<u32> = Vec::new();
    for i in 0..3u8 {
        let e = world.spawn();
        world.add_component(e, CompValue::Pile(Pile::Tableau(i)));
        entities.push(e);
    }
    // A fourth entity without that component kind is not visited.
    let bare = world.spawn();
    world.add_component(bare, CompValue::FaceUp(FaceUp(false)));

    world.for_each(CompKind::Pile, |_e: u32, v: CompValue| match v {
        CompValue::Pile(Pile::Tableau(t)) => CompValue::Pile(Pile::Tableau(t + 1)),
        other => other,
    });

    for (i, e) in entities.iter().enumerate() {
        assert_eq!(
            world.get_component(CompKind::Pile, *e),
            Some(&CompValue::Pile(Pile::Tableau(i as u8 + 1)))
        );
    }
    assert_eq!(
        world.get_component(CompKind::FaceUp, bare),
        Some(&CompValue::FaceUp(FaceUp(false)))
    );
    assert!(world.get_component(CompKind::Pile, bare).is_none());
}

#[test]
fn flip_every_third_card() {
    let mut world = World::new();
    let deck = Deck::standard();
    for i in 0..52usize {
        let e = world.spawn();
        world.add_component(e, CompValue::Card(deck.cards[i]));
        world.add_component(e, CompValue::FaceUp(FaceUp(false)));
    }

    world.for_each(CompKind::FaceUp, |e: u32, v: CompValue| {
        if e % 3 == 0 {
            CompValue::FaceUp(FaceUp(true))
        } else {
            v
        }
    });

    let mut ups: u32 = 0;
    for i in 0..52u32 {
        match world.get_component(CompKind::FaceUp, i) {
            Some(CompValue::FaceUp(FaceUp(b))) => {
                if *b {
                    ups += 1;
                }
                assert_eq!(*b, i % 3 == 0);
            }
            _ => panic!("face-up flag should be present"),
        }
        match world.get_component(CompKind::Card, i) {
            Some(CompValue::Card(c)) => assert_eq!(*c, deck.cards[i as usize]),
            _ => panic!("card should be present"),
        }
    }
    assert_eq!(ups, 18);
    assert_eq!(52 - ups, 34);
}
