//! A verified entity-component store for a small card game.
//!
//! The store associates typed component values with integer entity
//! identifiers. Components are drawn from a closed universe of kinds, so a
//! lookup for one kind can never observe a value stored under another.

use vstd::prelude::*;

pub mod ecs;
pub mod game;

use crate::ecs::{CompKind, CompValue, Entity, World};
use crate::game::{standard_card, Card, Deck, FaceUp, Pile};

verus! {

/// The keys a freshly set up board's table holds: every kind of component,
/// for every entity below `n`.
pub open spec fn board_keys(n: int) -> Set<(CompKind, Entity)> {
    Set::new(|k: (CompKind, Entity)| (k.1 as int) < n)
}

/// The high-level game state: a component store and a deck of cards.
pub struct SolitaireGame {
    pub world: World,
    pub deck: Deck,
}

impl SolitaireGame {
    /// Create a new solitaire game with an empty store and a full deck.
    pub fn new() -> (g: SolitaireGame)
        ensures
            g.world.fresh(),
            g.deck.cards@.len() == 52,
            forall|i: int| 0 <= i < 52 ==> g.deck.cards@[i] == standard_card(i),
    {
        SolitaireGame { world: World::new(), deck: Deck::standard() }
    }

    /// Draw the top card from the deck, or `None` when the deck is empty.
    pub fn draw_card(&mut self) -> (r: Option<Card>)
        ensures
            final(self).world == old(self).world,
            old(self).deck.cards@.len() == 0 ==> r is None && final(self).deck.cards@
                == old(self).deck.cards@,
            old(self).deck.cards@.len() > 0 ==> r == Some(old(self).deck.cards@.last())
                && final(self).deck.cards@ == old(self).deck.cards@.drop_last(),
    {
        self.deck.cards.pop()
    }

    /// Set up a fresh board: replace the store, shuffle the deck, and give
    /// every card an entity carrying its card value, a facedown marker and
    /// a place in the stock pile.
    pub fn setup_board(&mut self)
        requires
            old(self).deck.cards@.len() <= u32::MAX,
        ensures
            final(self).deck.cards@.len() == old(self).deck.cards@.len(),
            final(self).deck.cards@.to_multiset() == old(self).deck.cards@.to_multiset(),
            final(self).world.wf(),
            final(self).world.next_entity() == final(self).deck.cards@.len(),
            final(self).world.table().dom() == board_keys(final(self).deck.cards@.len() as int),
            forall|e: Entity|
                (e as int) < final(self).deck.cards@.len() ==> {
                    &&& #[trigger] final(self).world.spec_get(CompKind::Card, e) == Some(
                        CompValue::Card(final(self).deck.cards@[e as int]),
                    )
                    &&& final(self).world.spec_get(CompKind::FaceUp, e) == Some(
                        CompValue::FaceUp(FaceUp(false)),
                    )
                    &&& final(self).world.spec_get(CompKind::Pile, e) == Some(
                        CompValue::Pile(Pile::Stock),
                    )
                },
    {
        self.world = World::new();
        self.deck.shuffle();
        let ghost shuffled = self.deck.cards@;
        let n = self.deck.cards.len();
        proof {
            assert(self.world.table().dom() =~= board_keys(0));
        }
        let mut idx: usize = 0;
        while idx < n
            invariant
                self.deck.cards@ == shuffled,
                n == shuffled.len(),
                n <= u32::MAX,
                shuffled.len() == old(self).deck.cards@.len(),
                shuffled.to_multiset() == old(self).deck.cards@.to_multiset(),
                0 <= idx <= n,
                self.world.wf(),
                self.world.next_entity() as int == idx as int,
                self.world.table().dom() == board_keys(idx as int),
                forall|e: Entity|
                    (e as int) < idx ==> {
                        &&& #[trigger] self.world.spec_get(CompKind::Card, e) == Some(
                            CompValue::Card(shuffled[e as int]),
                        )
                        &&& self.world.spec_get(CompKind::FaceUp, e) == Some(
                            CompValue::FaceUp(FaceUp(false)),
                        )
                        &&& self.world.spec_get(CompKind::Pile, e) == Some(
                            CompValue::Pile(Pile::Stock),
                        )
                    },
            decreases n - idx,
        {
            let ghost w_entry = self.world;
            let entity = self.world.spawn();
            let card = self.deck.cards[idx];
            let ghost t0 = self.world.table();
            self.world.add_component(entity, CompValue::Card(card));
            self.world.add_component(entity, CompValue::FaceUp(FaceUp(false)));
            self.world.add_component(entity, CompValue::Pile(Pile::Stock));
            proof {
                let t3 = self.world.table();
                assert forall|k: (CompKind, Entity)| board_keys(
                    idx as int + 1,
                ).contains(k) implies t3.dom().contains(k) by {
                    if (k.1 as int) < idx as int {
                        assert(board_keys(idx as int).contains(k));
                        assert(t0.dom().contains(k));
                    } else {
                        assert(k.1 == entity);
                        match k.0 {
                            CompKind::Card => {
                                assert(k == (CompKind::Card, entity));
                            },
                            CompKind::FaceUp => {
                                assert(k == (CompKind::FaceUp, entity));
                            },
                            CompKind::Pile => {
                                assert(k == (CompKind::Pile, entity));
                            },
                        }
                    }
                }
                assert forall|k: (CompKind, Entity)| t3.dom().contains(k) implies board_keys(
                    idx as int + 1,
                ).contains(k) by {
                    if k != (CompKind::Card, entity) && k != (CompKind::FaceUp, entity) && k != (
                        CompKind::Pile,
                        entity,
                    ) {
                        assert(t0.dom().contains(k));
                        assert(board_keys(idx as int).contains(k));
                    }
                }
                assert(t3.dom() =~= board_keys(idx as int + 1));
                assert forall|e: Entity| (e as int) < idx as int + 1 implies self.world.spec_get(
                    CompKind::Card,
                    e,
                ) == Some(CompValue::Card(shuffled[e as int])) && self.world.spec_get(
                    CompKind::FaceUp,
                    e,
                ) == Some(CompValue::FaceUp(FaceUp(false))) && self.world.spec_get(
                    CompKind::Pile,
                    e,
                ) == Some(CompValue::Pile(Pile::Stock)) by {
                    if (e as int) < idx as int {
                        assert(w_entry.spec_get(CompKind::Card, e) == Some(
                            CompValue::Card(shuffled[e as int]),
                        ));
                        assert(e != entity);
                        assert(w_entry.table() == t0);
                    } else {
                        assert(e == entity);
                    }
                }
            }
            idx = idx + 1;
        }
    }
}

} // verus!
