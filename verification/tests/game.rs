use solitaire_ecs::ecs::{CompKind, CompValue};
use solitaire_ecs::game::{Card, Deck, FaceUp, Pile, Rank, Suit};
use solitaire_ecs::SolitaireGame;

#[test]
fn card_new_keeps_suit_and_rank() {
    let c = Card::new(Suit::Diamonds, Rank::Ten);
    assert_eq!(c.suit, Suit::Diamonds);
    assert_eq!(c.rank, Rank::Ten);
}

#[test]
fn standard_deck_has_52_distinct_cards() {
    let deck = Deck::standard();
    assert_eq!(deck.cards.len(), 52);
    assert_eq!(deck.cards[0], Card::new(Suit::Clubs, Rank::Ace));
    assert_eq!(deck.cards[12], Card::new(Suit::Clubs, Rank::King));
    assert_eq!(deck.cards[13], Card::new(Suit::Diamonds, Rank::Ace));
    assert_eq!(deck.cards[51], Card::new(Suit::Spades, Rank::King));
    for i in 0..52usize {
        for j in 0..i {
            assert_ne!(deck.cards[i], deck.cards[j]);
        }
    }
}

#[test]
fn shuffle_keeps_the_same_cards() {
    let mut deck = Deck::standard();
    let reference = Deck::standard();
    deck.shuffle();
    assert_eq!(deck.cards.len(), 52);
    for c in reference.cards.iter() {
        let before = reference.cards.iter().filter(|x| *x == c).count();
        let after = deck.cards.iter().filter(|x| *x == c).count();
        assert_eq!(before, after);
    }
}

#[test]
fn draw_card_pops_from_the_top() {
    let mut game = SolitaireGame::new();
    let top = *game.deck.cards.last().unwrap();
    assert_eq!(game.draw_card(), Some(top));
    assert_eq!(game.deck.cards.len(), 51);
    for _ in 0..51 {
        assert!(game.draw_card().is_some());
    }
    assert_eq!(game.draw_card(), None);
    assert_eq!(game.draw_card(), None);
}

#[test]
fn setup_board_deals_every_card_facedown_into_stock() {
    let mut game = SolitaireGame::new();
    game.setup_board();
    assert_eq!(game.deck.cards.len(), 52);
    for e in 0..52u32 {
        assert_eq!(
            game.world.get_component(CompKind::Card, e),
            Some(&CompValue::Card(game.deck.cards[e as usize]))
        );
        assert_eq!(
            game.world.get_component(CompKind::FaceUp, e),
            Some(&CompValue::FaceUp(FaceUp(false)))
        );
        assert_eq!(
            game.world.get_component(CompKind::Pile, e),
            Some(&CompValue::Pile(Pile::Stock))
        );
    }
    assert!(game.world.get_component(CompKind::Card, 52).is_none());
}

#[test]
fn setup_board_keeps_the_deck_cards() {
    let mut game = SolitaireGame::new();
    let reference = Deck::standard();
    game.setup_board();
    for c in reference.cards.iter() {
        let count = game.deck.cards.iter().filter(|x| *x == c).count();
        assert_eq!(count, 1);
    }
}
