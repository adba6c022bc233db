use ti4_engine::setup::cards_per_player;

#[test]
fn three_and_four_player_games_deal_two_cards_each() {
    assert_eq!(cards_per_player(3), 2);
    assert_eq!(cards_per_player(4), 2);
    assert_eq!(cards_per_player(2), 1);
    assert_eq!(cards_per_player(5), 1);
    assert_eq!(cards_per_player(6), 1);
}
