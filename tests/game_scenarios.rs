use tafl::game::{Game, MoveOutcome};
use tafl::pieces::Player;
use tafl::pieces::Player::{Attacker, Defender};

fn new_game() -> Game {
    Game::new()
}

fn expect_n_pieces(game: &Game, n: usize) {
    assert_eq!(game.live_count(), n);
}

fn skip_turn(game: &mut Game, player: Player) {
    assert!(
        game.skip_turn(player),
        "Error while skipping turns, incorrect player!"
    );
}

fn force_move_piece(
    game: &mut Game,
    player: Player,
    piece_loc: (i8, i8),
    target_loc: (i8, i8),
) -> MoveOutcome {
    let id = match game.select_piece(piece_loc) {
        Some(id) => id,
        None => panic!(
            "No piece is selected! Probably incorrect player!\n{:?}->{:?}",
            piece_loc, target_loc
        ),
    };
    assert_eq!(
        game.pieces[id].unwrap().player,
        player,
        "Selected piece is not of the correct player! Should never happen!"
    );
    game.submit_move(id, target_loc)
}

fn expect_game_over(game: &Game, player: Player) {
    assert_eq!(game.is_game_over(), Some(player));
}

#[test]
fn spawn_board() {
    let game = new_game();
    expect_n_pieces(&game, 37);
}

#[test]
fn skip_turn_happy() {
    let mut game = new_game();
    expect_n_pieces(&game, 37);

    skip_turn(&mut game, Attacker);
    skip_turn(&mut game, Defender);
    skip_turn(&mut game, Attacker);
}

#[test]
#[should_panic]
fn skip_turn_illegal() {
    let mut game = new_game();
    expect_n_pieces(&game, 37);

    skip_turn(&mut game, Attacker);
    skip_turn(&mut game, Defender);
    skip_turn(&mut game, Defender);
}

#[test]
fn simple_kill() {
    let mut game = new_game();
    expect_n_pieces(&game, 37);

    skip_turn(&mut game, Attacker);
    force_move_piece(&mut game, Defender, (4, 4), (4, 1));
    force_move_piece(&mut game, Attacker, (7, 0), (7, 2));
    force_move_piece(&mut game, Defender, (6, 4), (6, 1));

    // Killed an attacker
    expect_n_pieces(&game, 36);

    force_move_piece(&mut game, Attacker, (7, 2), (6, 2));
    // Killed a defender
    expect_n_pieces(&game, 35);
}

#[test]
fn simple_kill_but_not_the_mover() {
    let mut game = new_game();
    expect_n_pieces(&game, 37);

    skip_turn(&mut game, Attacker);
    force_move_piece(&mut game, Defender, (4, 4), (4, 1));
    force_move_piece(&mut game, Attacker, (7, 0), (7, 1));
    force_move_piece(&mut game, Defender, (6, 4), (6, 1));

    expect_n_pieces(&game, 36);
}

#[test]
fn simple_kill_but_not_the_mover_in_the_turn_after() {
    let mut game = new_game();
    expect_n_pieces(&game, 37);

    skip_turn(&mut game, Attacker);
    force_move_piece(&mut game, Defender, (4, 4), (4, 2));
    force_move_piece(&mut game, Attacker, (3, 0), (3, 1));
    force_move_piece(&mut game, Defender, (4, 2), (4, 1));
    force_move_piece(&mut game, Attacker, (7, 0), (7, 1));

    expect_n_pieces(&game, 37);
}

#[test]
fn simple_kill_but_not_from_a_bystander() {
    let mut game = new_game();
    expect_n_pieces(&game, 37);

    skip_turn(&mut game, Attacker);
    force_move_piece(&mut game, Defender, (4, 4), (4, 2));
    force_move_piece(&mut game, Attacker, (3, 0), (3, 1));
    force_move_piece(&mut game, Defender, (4, 2), (4, 1));
    force_move_piece(&mut game, Attacker, (4, 0), (3, 0));
    skip_turn(&mut game, Defender);
    force_move_piece(&mut game, Attacker, (3, 0), (4, 0));

    expect_n_pieces(&game, 37);
}

#[test]
fn multi_kill1() {
    let mut game = new_game();
    expect_n_pieces(&game, 37);

    skip_turn(&mut game, Attacker);
    force_move_piece(&mut game, Defender, (4, 4), (4, 1));
    force_move_piece(&mut game, Attacker, (3, 0), (1, 0));
    force_move_piece(&mut game, Defender, (6, 4), (6, 1));
    expect_n_pieces(&game, 36);
    force_move_piece(&mut game, Attacker, (7, 0), (9, 0));
    force_move_piece(&mut game, Defender, (3, 5), (3, 0));
    skip_turn(&mut game, Attacker);
    force_move_piece(&mut game, Defender, (7, 5), (7, 0));
    skip_turn(&mut game, Attacker);
    force_move_piece(&mut game, Defender, (5, 3), (5, 1));

    expect_n_pieces(&game, 33);
}

#[test]
fn multi_kill2() {
    let mut game = new_game();
    expect_n_pieces(&game, 37);

    skip_turn(&mut game, Attacker);
    force_move_piece(&mut game, Defender, (4, 4), (4, 1));
    force_move_piece(&mut game, Attacker, (3, 0), (1, 0));
    force_move_piece(&mut game, Defender, (6, 4), (6, 1));
    expect_n_pieces(&game, 36);
    force_move_piece(&mut game, Attacker, (5, 0), (5, 1));
    force_move_piece(&mut game, Defender, (6, 1), (6, 2));
    skip_turn(&mut game, Attacker);
    force_move_piece(&mut game, Defender, (6, 2), (6, 1));
    expect_n_pieces(&game, 35);

    force_move_piece(&mut game, Attacker, (7, 0), (9, 0));
    force_move_piece(&mut game, Defender, (3, 5), (3, 0));
    skip_turn(&mut game, Attacker);
    force_move_piece(&mut game, Defender, (7, 5), (7, 0));
    skip_turn(&mut game, Attacker);
    force_move_piece(&mut game, Defender, (5, 3), (5, 0));

    expect_n_pieces(&game, 33);
}

#[test]
fn multi_kill3() {
    let mut game = new_game();
    expect_n_pieces(&game, 37);

    skip_turn(&mut game, Attacker);
    force_move_piece(&mut game, Defender, (4, 4), (4, 1));
    skip_turn(&mut game, Attacker);
    force_move_piece(&mut game, Defender, (6, 4), (6, 1));
    expect_n_pieces(&game, 36);
    force_move_piece(&mut game, Attacker, (5, 0), (5, 1));
    force_move_piece(&mut game, Defender, (6, 1), (6, 2));
    skip_turn(&mut game, Attacker);
    force_move_piece(&mut game, Defender, (6, 2), (6, 1));
    expect_n_pieces(&game, 35);

    // Maneuver left side
    skip_turn(&mut game, Attacker);
    force_move_piece(&mut game, Defender, (3, 5), (3, 1));
    skip_turn(&mut game, Attacker);
    force_move_piece(&mut game, Defender, (4, 5), (2, 5));
    skip_turn(&mut game, Attacker);
    force_move_piece(&mut game, Defender, (2, 5), (2, 0));
    skip_turn(&mut game, Attacker);

    // Maneuver right side
    force_move_piece(&mut game, Defender, (7, 5), (7, 1));
    skip_turn(&mut game, Attacker);
    force_move_piece(&mut game, Defender, (6, 5), (8, 5));
    skip_turn(&mut game, Attacker);
    force_move_piece(&mut game, Defender, (8, 5), (8, 0));
    skip_turn(&mut game, Attacker);

    force_move_piece(&mut game, Defender, (5, 3), (5, 0));

    expect_n_pieces(&game, 31);
}

#[test]
fn only_king_can_stand_in_the_centre() {
    let mut game = new_game();
    expect_n_pieces(&game, 37);

    skip_turn(&mut game, Attacker);
    force_move_piece(&mut game, Defender, (4, 4), (4, 1));
    skip_turn(&mut game, Attacker);
    force_move_piece(&mut game, Defender, (6, 4), (6, 1));
    expect_n_pieces(&game, 36);
    force_move_piece(&mut game, Attacker, (5, 0), (5, 1));
    force_move_piece(&mut game, Defender, (6, 1), (6, 2));
    skip_turn(&mut game, Attacker);
    force_move_piece(&mut game, Defender, (6, 2), (6, 1));
    expect_n_pieces(&game, 35);

    // Move the 2 Defenders below the king
    skip_turn(&mut game, Attacker);
    force_move_piece(&mut game, Defender, (5, 3), (5, 0));
    skip_turn(&mut game, Attacker);
    force_move_piece(&mut game, Defender, (5, 4), (5, 1));
    skip_turn(&mut game, Attacker);

    // Move the King out of the centre place
    force_move_piece(&mut game, Defender, (5, 5), (5, 2));

    // Move an Attacker in the direction of the centre piece
    force_move_piece(&mut game, Attacker, (0, 4), (5, 4));

    // Try move a Defender into the centre piece
    force_move_piece(&mut game, Defender, (5, 6), (5, 5));
    // Last step should have failed, so we skip the turn instead
    skip_turn(&mut game, Defender);

    // Try move an Attacker in the direction of the centre piece
    force_move_piece(&mut game, Attacker, (5, 4), (5, 5));
    // Last step should have failed, so move the attacker piece away instead
    force_move_piece(&mut game, Attacker, (5, 4), (0, 4));

    // Move the king back into the centre piece
    force_move_piece(&mut game, Defender, (5, 2), (5, 5));
    // Should be succesfull
    skip_turn(&mut game, Attacker);

    expect_n_pieces(&game, 35);
}

#[test]
fn regular_pieces_can_jump_over_the_centre_piece() {
    let mut game = new_game();
    expect_n_pieces(&game, 37);

    skip_turn(&mut game, Attacker);
    force_move_piece(&mut game, Defender, (4, 4), (4, 1));
    skip_turn(&mut game, Attacker);
    force_move_piece(&mut game, Defender, (6, 4), (6, 1));
    expect_n_pieces(&game, 36);
    force_move_piece(&mut game, Attacker, (5, 0), (5, 1));
    force_move_piece(&mut game, Defender, (6, 1), (6, 2));
    skip_turn(&mut game, Attacker);
    force_move_piece(&mut game, Defender, (6, 2), (6, 1));
    expect_n_pieces(&game, 35);

    // Move the 2 Defenders below the king
    skip_turn(&mut game, Attacker);
    force_move_piece(&mut game, Defender, (5, 3), (5, 0));
    skip_turn(&mut game, Attacker);
    force_move_piece(&mut game, Defender, (5, 4), (5, 1));
    skip_turn(&mut game, Attacker);

    // Move the King out of the centre place
    force_move_piece(&mut game, Defender, (5, 5), (5, 2));

    skip_turn(&mut game, Attacker);

    // Try move a Defender over the centre piece
    force_move_piece(&mut game, Defender, (5, 6), (5, 4));
    // This should succeed, so skip attacker and move defender out of the way
    skip_turn(&mut game, Attacker);
    force_move_piece(&mut game, Defender, (5, 4), (9, 4));

    // Next try move an Attacker over the centre piece
    force_move_piece(&mut game, Attacker, (0, 4), (5, 4));
    skip_turn(&mut game, Defender);
    force_move_piece(&mut game, Attacker, (5, 4), (5, 6));

    // Last step should be succesfull, test it by skipping the defenders turn
    skip_turn(&mut game, Defender);

    expect_n_pieces(&game, 35);
}

#[test]
fn king_is_not_killed_by_only_two() {
    let mut game = new_game();
    expect_n_pieces(&game, 37);

    skip_turn(&mut game, Attacker);
    force_move_piece(&mut game, Defender, (4, 4), (1, 4));
    skip_turn(&mut game, Attacker);
    force_move_piece(&mut game, Defender, (5, 4), (2, 4));
    skip_turn(&mut game, Attacker);
    force_move_piece(&mut game, Defender, (5, 3), (2, 3));
    force_move_piece(&mut game, Attacker, (5, 1), (5, 2));
    force_move_piece(&mut game, Defender, (6, 4), (3, 4));
    force_move_piece(&mut game, Attacker, (4, 0), (4, 3));
    expect_n_pieces(&game, 37);
    // Move king
    force_move_piece(&mut game, Defender, (5, 5), (5, 3));
    // Surround king left-right
    force_move_piece(&mut game, Attacker, (6, 0), (6, 3));
    // Should not die
    expect_n_pieces(&game, 37);
    skip_turn(&mut game, Defender);

    // Not surround left-right
    force_move_piece(&mut game, Attacker, (6, 3), (6, 0));
    skip_turn(&mut game, Defender);
    // But surround up-down
    force_move_piece(&mut game, Attacker, (10, 4), (5, 4));

    expect_n_pieces(&game, 37);
}

#[test]
fn but_king_is_killed_by_four() {
    let mut game = new_game();
    expect_n_pieces(&game, 37);

    skip_turn(&mut game, Attacker);
    force_move_piece(&mut game, Defender, (4, 4), (1, 4));
    skip_turn(&mut game, Attacker);
    force_move_piece(&mut game, Defender, (5, 4), (2, 4));
    skip_turn(&mut game, Attacker);
    force_move_piece(&mut game, Defender, (5, 3), (2, 3));
    force_move_piece(&mut game, Attacker, (5, 1), (5, 2));
    force_move_piece(&mut game, Defender, (6, 4), (3, 4));
    force_move_piece(&mut game, Attacker, (4, 0), (4, 3));
    expect_n_pieces(&game, 37);
    // Move king
    force_move_piece(&mut game, Defender, (5, 5), (5, 3));
    force_move_piece(&mut game, Attacker, (6, 0), (6, 3));
    skip_turn(&mut game, Defender);
    expect_n_pieces(&game, 37);
    force_move_piece(&mut game, Attacker, (10, 4), (5, 4));

    expect_n_pieces(&game, 36);
}

#[test]
fn kill_against_corner() {
    let mut game = new_game();
    expect_n_pieces(&game, 37);
    force_move_piece(&mut game, Attacker, (10, 3), (10, 1));
    force_move_piece(&mut game, Defender, (5, 3), (10, 3));
    skip_turn(&mut game, Attacker);
    expect_n_pieces(&game, 37);
    force_move_piece(&mut game, Defender, (10, 3), (10, 2));
    // A corner is an ordinary empty square when captures are resolved:
    // the attacker on (10, 1) still has the free corner (10, 0) beside it
    // and only one hostile flank, so it stays.
    expect_n_pieces(&game, 37);
}

#[test]
fn king_wins_when_reaching_a_corner() {
    let mut game = new_game();
    expect_n_pieces(&game, 37);
    skip_turn(&mut game, Attacker);
    force_move_piece(&mut game, Defender, (5, 3), (1, 3));
    skip_turn(&mut game, Attacker);
    force_move_piece(&mut game, Defender, (5, 4), (5, 2));
    skip_turn(&mut game, Attacker);
    force_move_piece(&mut game, Defender, (5, 5), (5, 3));
    skip_turn(&mut game, Attacker);
    force_move_piece(&mut game, Defender, (5, 3), (9, 3));
    skip_turn(&mut game, Attacker);
    force_move_piece(&mut game, Defender, (9, 3), (9, 0));
    skip_turn(&mut game, Attacker);
    force_move_piece(&mut game, Defender, (9, 0), (10, 0));

    expect_game_over(&game, Defender);

    // None of these moves takes a piece: reaching the corner ends the game
    // with all the pieces still in play.
    expect_n_pieces(&game, 37);
}
