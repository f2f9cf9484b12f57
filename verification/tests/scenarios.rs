use labyrinth_tournament::pipeline::RunInput;
use labyrinth_tournament::{
    AccountOwner, Difficulty, InitializationArgument, LabyrinthState, LabyrinthTournamentContract,
    Message, Operation, Response, TournamentError, TournamentStatus,
};

const T0: u64 = 1_700_000_000_000_000;
const DAY: u64 = 86_400_000_000;

fn wallet(tag: u8) -> [u8; 20] {
    let mut bytes = [0u8; 20];
    bytes[0] = tag;
    bytes[19] = tag;
    bytes
}

fn fresh() -> LabyrinthTournamentContract {
    let mut contract = LabyrinthTournamentContract::load(LabyrinthState::new());
    contract.instantiate(InitializationArgument { hub_chain_id: "hub".to_string() }, T0);
    contract
}

fn run(tournament_id: u64, time_ms: u64, completed: bool) -> RunInput {
    RunInput { tournament_id, time_ms, score: time_ms / 100, coins: 3, deaths: 0, completed }
}

#[test]
fn init_publishes_the_default_championship() {
    let contract = fresh();
    assert_eq!(contract.state.active_tournament_id, Some(1));
    assert_eq!(contract.state.next_tournament_id, 2);
    assert_eq!(contract.state.next_run_id, 1);
    assert_eq!(contract.state.hub_chain_id, Some("hub".to_string()));
    assert_eq!(contract.state.tournaments.len(), 1);
    assert_eq!(contract.state.leaderboards.len(), 1);
    assert!(contract.state.leaderboards[0].is_empty());
    assert!(contract.state.recent_runs.is_empty());
    let t = &contract.state.tournaments[0];
    assert_eq!(t.id, 1);
    assert_eq!(t.status, TournamentStatus::Active);
    assert_eq!(t.start_time, T0);
    assert_eq!(t.end_time, T0 + 15 * 86_400 * 1_000_000);
    assert_eq!(t.maze_seed, "labyrinth_legends_1700000000");
    assert_eq!(t.xp_reward_pool, 10_000);
    assert_eq!(t.difficulty, Difficulty::Medium);
    assert_eq!(t.title, "Labyrinth Legends Championship");
    assert_eq!(t.participant_count, 0);
    assert_eq!(t.total_runs, 0);
    assert_eq!(t.created_at, T0);
}

#[test]
fn bootstrap_is_idempotent() {
    let mut once = LabyrinthTournamentContract::load(LabyrinthState::new());
    let first = once.bootstrap_tournament(T0);
    assert!(matches!(
        first,
        Ok(Response::TournamentBootstrapped { id: 1, end_time, already_existed: false })
            if end_time == T0 + 15 * DAY
    ));
    let after_one = format!("{:?}", once.state);
    for k in 1..4u64 {
        let again = once.bootstrap_tournament(T0 + k * DAY);
        assert!(matches!(
            again,
            Ok(Response::TournamentBootstrapped { id: 1, end_time, already_existed: true })
                if end_time == T0 + 15 * DAY
        ));
        assert_eq!(format!("{:?}", once.state), after_one);
    }
}

#[test]
fn bootstrap_refuses_an_end_time_out_of_range() {
    let mut contract = LabyrinthTournamentContract::load(LabyrinthState::new());
    let before = format!("{:?}", contract.state);
    let result = contract.bootstrap_tournament(u64::MAX - 15 * DAY + 1);
    assert!(matches!(result, Err(TournamentError::InvalidTimes)));
    assert_eq!(format!("{:?}", contract.state), before);
    let result = contract.bootstrap_tournament(u64::MAX - 15 * DAY);
    assert!(matches!(
        result,
        Ok(Response::TournamentBootstrapped { id: 1, end_time: u64::MAX, already_existed: false })
    ));
}

#[test]
fn bootstrap_republishes_an_existing_tournament() {
    let mut contract = fresh();
    let created = contract.create_tournament(
        "Second".to_string(),
        "two".to_string(),
        "seed-2".to_string(),
        Difficulty::Hard,
        3,
        500,
        T0 + 5,
    );
    assert!(matches!(
        created,
        Ok(Response::TournamentCreated { id: 2, ref maze_seed, end_time })
            if maze_seed == "seed-2" && end_time == T0 + 5 + 3 * DAY
    ));
    assert_eq!(contract.state.active_tournament_id, Some(2));
    let title_before = contract.state.tournaments[0].title.clone();
    let again = contract.bootstrap_tournament(T0 + 10);
    assert!(matches!(again, Ok(Response::TournamentBootstrapped { id: 1, already_existed: true, .. })));
    assert_eq!(contract.state.active_tournament_id, Some(1));
    assert_eq!(contract.state.tournaments[0].title, title_before);
    assert_eq!(contract.state.tournaments.len(), 2);
}

#[test]
fn create_tournament_allocates_dense_ids() {
    let mut contract = fresh();
    for expected in 2..6u64 {
        let created = contract.create_tournament(
            format!("T{}", expected),
            String::new(),
            "s".to_string(),
            Difficulty::Easy,
            1,
            0,
            T0,
        );
        assert!(matches!(created, Ok(Response::TournamentCreated { id, .. }) if id == expected));
        let t = &contract.state.tournaments[(expected - 1) as usize];
        assert_eq!(t.id, expected);
        assert_eq!(t.start_time, T0);
        assert_eq!(t.end_time, T0 + DAY);
        assert_eq!(t.status, TournamentStatus::Active);
        assert_eq!(t.participant_count, 0);
        assert_eq!(t.total_runs, 0);
        assert_eq!(contract.state.next_tournament_id, expected + 1);
        assert_eq!(contract.state.active_tournament_id, Some(expected));
        assert!(contract.state.leaderboards[(expected - 1) as usize].is_empty());
    }
}

#[test]
fn create_tournament_rejects_bad_durations() {
    let mut contract = fresh();
    let before = format!("{:?}", contract.state);
    let zero = contract.create_tournament(
        "x".to_string(),
        "y".to_string(),
        "z".to_string(),
        Difficulty::Easy,
        0,
        10,
        T0,
    );
    assert!(matches!(zero, Err(TournamentError::InvalidDuration)));
    let huge = contract.create_tournament(
        "x".to_string(),
        "y".to_string(),
        "z".to_string(),
        Difficulty::Easy,
        u64::MAX,
        10,
        T0,
    );
    assert!(matches!(huge, Err(TournamentError::InvalidTimes)));
    let edge = contract.create_tournament(
        "x".to_string(),
        "y".to_string(),
        "z".to_string(),
        Difficulty::Easy,
        1,
        10,
        u64::MAX - DAY + 1,
    );
    assert!(matches!(edge, Err(TournamentError::InvalidTimes)));
    assert_eq!(format!("{:?}", contract.state), before);
}

#[test]
fn two_players_three_runs() {
    let mut contract = fresh();
    let a = wallet(0xA1);
    let b = wallet(0xB2);
    let signer_a = AccountOwner::Address20(a);
    let signer_b = AccountOwner::Address20(b);

    let first = contract.submit_run(signer_a, run(1, 90_000, true), T0 + 1);
    assert!(matches!(
        first,
        Ok(Response::RunSubmitted { run_id: 1, xp_earned: 225, new_best: true, rank: 1 })
    ));
    let second = contract.submit_run(signer_a, run(1, 60_000, true), T0 + 2);
    assert!(matches!(
        second,
        Ok(Response::RunSubmitted { run_id: 2, xp_earned: 250, new_best: true, rank: 1 })
    ));
    let third = contract.submit_run(signer_b, run(1, 70_000, true), T0 + 3);
    assert!(matches!(
        third,
        Ok(Response::RunSubmitted { run_id: 3, xp_earned: 241, new_best: true, rank: 2 })
    ));

    let board = &contract.state.leaderboards[0];
    assert_eq!(board.len(), 2);
    assert_eq!((board[0].wallet_address, board[0].best_time_ms, board[0].rank), (a, 60_000, 1));
    assert_eq!((board[1].wallet_address, board[1].best_time_ms, board[1].rank), (b, 70_000, 2));
    assert_eq!(board[0].total_runs, 2);
    assert_eq!(board[0].total_xp, 475);
    assert_eq!(board[0].best_score, 900);
    assert_eq!(board[0].username, "Player_a1000000");
    assert_eq!(board[1].username, "Player_b2000000");

    let t = &contract.state.tournaments[0];
    assert_eq!(t.participant_count, 2);
    assert_eq!(t.total_runs, 3);
    assert_eq!(contract.state.next_run_id, 4);
    assert_eq!(contract.state.recent_runs, vec![3, 2, 1]);
    assert_eq!(contract.state.runs.len(), 3);
    assert_eq!(contract.state.runs[1].id, 2);
    assert_eq!(contract.state.runs[1].wallet_address, a);
    assert_eq!(contract.state.runs[1].xp_earned, 250);
    assert_eq!(contract.state.runs[1].created_at, T0 + 2);

    let pa = contract.state.players.iter().find(|p| p.wallet_address == a).unwrap();
    assert_eq!(pa.total_xp, 475);
    assert_eq!(pa.total_runs, 2);
    assert_eq!(pa.tournaments_played, 1);
    assert_eq!(pa.best_time_ms, Some(60_000));
    assert_eq!(pa.last_active, T0 + 2);
    assert_eq!(pa.registered_at, T0 + 1);
    assert_eq!(contract.state.tournament_players.len(), 2);
}

#[test]
fn slower_run_is_not_a_new_best() {
    let mut contract = fresh();
    let a = wallet(1);
    let signer = AccountOwner::Address20(a);
    contract.submit_run(signer, run(1, 50_000, true), T0 + 1).unwrap();
    let slower = contract.submit_run(signer, run(1, 80_000, true), T0 + 2);
    assert!(matches!(slower, Ok(Response::RunSubmitted { run_id: 2, new_best: false, rank: 1, .. })));
    let equal = contract.submit_run(signer, run(1, 50_000, true), T0 + 3);
    assert!(matches!(equal, Ok(Response::RunSubmitted { run_id: 3, new_best: false, .. })));
    let unfinished = contract.submit_run(signer, run(1, 10, false), T0 + 4);
    assert!(matches!(unfinished, Ok(Response::RunSubmitted { run_id: 4, new_best: false, xp_earned: 100, .. })));
    let row = &contract.state.tournament_players[0];
    assert_eq!(row.tournament_id, 1);
    assert_eq!(row.player.best_time_ms, 50_000);
    assert_eq!(row.player.best_score, 800);
    assert_eq!(row.player.total_runs, 4);
    assert_eq!(row.player.joined_at, T0 + 1);
    assert_eq!(row.player.last_run_at, T0 + 4);
    assert_eq!(contract.state.leaderboards[0][0].best_time_ms, 50_000);
    assert_eq!(contract.state.players[0].best_time_ms, Some(50_000));
}

#[test]
fn unfinished_runs_rank_after_finished_ones() {
    let mut contract = fresh();
    let a = wallet(1);
    let b = wallet(2);
    let first = contract.submit_run(AccountOwner::Address20(a), run(1, 1_000, false), T0 + 1);
    assert!(matches!(first, Ok(Response::RunSubmitted { new_best: false, rank: 1, .. })));
    let second = contract.submit_run(AccountOwner::Address20(b), run(1, 900_000, true), T0 + 2);
    assert!(matches!(second, Ok(Response::RunSubmitted { new_best: true, rank: 1, .. })));
    let board = &contract.state.leaderboards[0];
    assert_eq!(board[0].wallet_address, b);
    assert_eq!(board[1].wallet_address, a);
    assert_eq!(board[1].best_time_ms, u64::MAX);
    assert_eq!(board[1].rank, 2);
    assert_eq!(contract.state.players.iter().find(|p| p.wallet_address == a).unwrap().best_time_ms, None);
}

#[test]
fn ties_keep_the_order_of_arrival() {
    let mut contract = fresh();
    for tag in 1..=4u8 {
        contract
            .submit_run(AccountOwner::Address20(wallet(tag)), run(1, 30_000, true), T0 + tag as u64)
            .unwrap();
    }
    let late = contract.submit_run(AccountOwner::Address20(wallet(9)), run(1, 30_000, true), T0 + 50);
    assert!(matches!(late, Ok(Response::RunSubmitted { rank: 5, .. })));
    let faster = contract.submit_run(AccountOwner::Address20(wallet(3)), run(1, 29_999, true), T0 + 60);
    assert!(matches!(faster, Ok(Response::RunSubmitted { rank: 1, new_best: true, .. })));
    let order: Vec<u8> = contract.state.leaderboards[0].iter().map(|e| e.wallet_address[0]).collect();
    assert_eq!(order, vec![3, 1, 2, 4, 9]);
    let ranks: Vec<u32> = contract.state.leaderboards[0].iter().map(|e| e.rank).collect();
    assert_eq!(ranks, vec![1, 2, 3, 4, 5]);
}

#[test]
fn submissions_are_refused_in_order() {
    let mut contract = fresh();
    let before = format!("{:?}", contract.state);
    let unknown = contract.submit_run(AccountOwner::Address32([7; 32]), run(1, 1, true), T0 + 1);
    assert!(matches!(unknown, Err(TournamentError::NotRegistered)));
    let reserved = contract.submit_run(AccountOwner::Reserved(0), run(99, 1, true), T0 + 1);
    assert!(matches!(reserved, Err(TournamentError::NotRegistered)));
    let missing = contract.submit_run(AccountOwner::Address20(wallet(1)), run(2, 1, true), T0 + 1);
    assert!(matches!(missing, Err(TournamentError::TournamentNotFound)));
    let zero = contract.submit_run(AccountOwner::Address20(wallet(1)), run(0, 1, true), T0 + 1);
    assert!(matches!(zero, Err(TournamentError::TournamentNotFound)));
    let late = contract.submit_run(AccountOwner::Address20(wallet(1)), run(1, 1, true), T0 + 15 * DAY);
    assert!(matches!(late, Err(TournamentError::TournamentNotActive)));
    assert_eq!(format!("{:?}", contract.state), before);
    let in_time = contract.submit_run(AccountOwner::Address20(wallet(1)), run(1, 1, true), T0 + 15 * DAY - 1);
    assert!(in_time.is_ok());
}

#[test]
fn registered_signer_submits_for_its_wallet() {
    let mut contract = fresh();
    let w = wallet(5);
    let signer = AccountOwner::Address32([9; 32]);
    let registered = contract.register_player(signer, w, "alice".to_string(), T0 + 1);
    assert!(matches!(registered, Ok(Response::PlayerRegistered { wallet_address }) if wallet_address == w));
    let submitted = contract.submit_run(signer, run(1, 45_000, true), T0 + 2);
    assert!(matches!(submitted, Ok(Response::RunSubmitted { run_id: 1, rank: 1, .. })));
    assert_eq!(contract.state.runs[0].wallet_address, w);
    assert_eq!(contract.state.runs[0].username, "alice");
    assert_eq!(contract.state.leaderboards[0][0].username, "alice");
    assert_eq!(contract.state.tournament_players[0].player.username, "alice");
    assert_eq!(contract.state.players.len(), 1);
}

#[test]
fn end_tournament_before_and_after_the_end_time() {
    let mut contract = fresh();
    let a = wallet(1);
    let b = wallet(2);
    let c = wallet(3);
    contract.submit_run(AccountOwner::Address20(a), run(1, 60_000, true), T0 + 1).unwrap();
    contract.submit_run(AccountOwner::Address20(b), run(1, 70_000, true), T0 + 2).unwrap();
    contract.submit_run(AccountOwner::Address20(c), run(1, 80_000, true), T0 + 3).unwrap();
    let end_time = T0 + 15 * DAY;

    let before = format!("{:?}", contract.state);
    let early = contract.end_tournament(1, end_time - 1);
    assert!(matches!(early, Err(TournamentError::NotYetDue { end_time: e }) if e == end_time));
    assert_eq!(format!("{:?}", contract.state), before);

    let xp_before: Vec<u64> = contract.state.players.iter().map(|p| p.total_xp).collect();
    let ended = contract.end_tournament(1, end_time);
    assert!(matches!(ended, Ok(Response::TournamentEnded { id: 1, winner_count: 3 })));
    assert_eq!(contract.state.tournaments[0].status, TournamentStatus::Ended);
    assert_eq!(contract.state.active_tournament_id, None);
    let amounts: Vec<u64> = contract.state.rewards.iter().map(|r| r.xp_amount).collect();
    assert_eq!(amounts, vec![4000, 2500, 1500]);
    let distributed: u64 = amounts.iter().sum();
    assert_eq!(10_000 - distributed, 2000);
    let ranks: Vec<u32> = contract.state.rewards.iter().map(|r| r.rank).collect();
    assert_eq!(ranks, vec![1, 2, 3]);
    assert!(contract.state.rewards.iter().all(|r| !r.claimed && r.tournament_id == 1));
    assert_eq!(contract.state.rewards[0].wallet_address, a);
    let xp_after: Vec<u64> = contract.state.players.iter().map(|p| p.total_xp).collect();
    assert_eq!(xp_after[0], xp_before[0] + 4000);
    assert_eq!(xp_after[1], xp_before[1] + 2500);
    assert_eq!(xp_after[2], xp_before[2] + 1500);
    let won: Vec<u32> = contract.state.players.iter().map(|p| p.tournaments_won).collect();
    assert_eq!(won, vec![1, 0, 0]);

    let again = contract.end_tournament(1, end_time + 1);
    assert!(matches!(again, Err(TournamentError::AlreadyEnded)));
    let missing = contract.end_tournament(7, end_time);
    assert!(matches!(missing, Err(TournamentError::TournamentNotFound)));
    let submit = contract.submit_run(AccountOwner::Address20(a), run(1, 1, true), T0 + 5);
    assert!(matches!(submit, Err(TournamentError::TournamentNotActive)));
}

#[test]
fn only_five_places_win() {
    let mut contract = fresh();
    for tag in 1..=7u8 {
        contract
            .submit_run(AccountOwner::Address20(wallet(tag)), run(1, 1_000 * tag as u64, true), T0 + 1)
            .unwrap();
    }
    let ended = contract.end_tournament(1, T0 + 15 * DAY);
    assert!(matches!(ended, Ok(Response::TournamentEnded { id: 1, winner_count: 5 })));
    let amounts: Vec<u64> = contract.state.rewards.iter().map(|r| r.xp_amount).collect();
    assert_eq!(amounts, vec![4000, 2500, 1500, 1200, 800]);
    assert_eq!(contract.state.players[5].tournaments_won, 0);
    assert_eq!(contract.state.players[5].total_xp, 295);
}

#[test]
fn prizes_are_rounded_down() {
    let mut contract = fresh();
    contract
        .create_tournament("odd".into(), "".into(), "s".into(), Difficulty::Easy, 1, 99, T0)
        .unwrap();
    for tag in 1..=5u8 {
        contract
            .submit_run(AccountOwner::Address20(wallet(tag)), run(2, 1_000 * tag as u64, true), T0 + 1)
            .unwrap();
    }
    let ended = contract.end_tournament(2, T0 + DAY);
    assert!(matches!(ended, Ok(Response::TournamentEnded { id: 2, winner_count: 5 })));
    let amounts: Vec<u64> = contract.state.rewards.iter().map(|r| r.xp_amount).collect();
    assert_eq!(amounts, vec![39, 24, 14, 11, 7]);
    assert_eq!(contract.state.active_tournament_id, None);
}

#[test]
fn ending_another_tournament_keeps_the_active_handle() {
    let mut contract = fresh();
    contract
        .create_tournament("two".into(), "".into(), "s".into(), Difficulty::Easy, 30, u64::MAX, T0)
        .unwrap();
    let ended = contract.end_tournament(1, T0 + 15 * DAY);
    assert!(matches!(ended, Ok(Response::TournamentEnded { id: 1, winner_count: 0 })));
    assert_eq!(contract.state.active_tournament_id, Some(2));
    assert!(contract.state.rewards.is_empty());
}

#[test]
fn a_huge_pool_does_not_overflow() {
    let mut contract = fresh();
    contract
        .create_tournament("big".into(), "".into(), "s".into(), Difficulty::Easy, 1, u64::MAX, T0)
        .unwrap();
    contract.submit_run(AccountOwner::Address20(wallet(1)), run(2, 500_000, false), T0 + 1).unwrap();
    let ended = contract.end_tournament(2, T0 + DAY);
    assert!(matches!(ended, Ok(Response::TournamentEnded { id: 2, winner_count: 1 })));
    assert_eq!(contract.state.rewards[0].xp_amount, 7_378_697_629_483_820_646);
    assert_eq!(contract.state.players[0].total_xp, 7_378_697_629_483_820_646 + 75);
}

#[test]
fn claim_succeeds_exactly_once() {
    let mut contract = fresh();
    let a = wallet(1);
    let signer = AccountOwner::Address20(a);
    contract.submit_run(signer, run(1, 60_000, true), T0 + 1).unwrap();
    let too_soon = contract.claim_reward(signer, 1);
    assert!(matches!(too_soon, Err(TournamentError::NoReward)));
    contract.end_tournament(1, T0 + 15 * DAY).unwrap();
    let xp = contract.state.players[0].total_xp;
    assert_eq!(xp, 250 + 4000);
    let stranger = contract.claim_reward(AccountOwner::Address20(wallet(2)), 1);
    assert!(matches!(stranger, Err(TournamentError::NotRegistered)));
    let claimed = contract.claim_reward(signer, 1);
    assert!(matches!(claimed, Ok(Response::RewardClaimed { tournament_id: 1, xp_amount: 4000 })));
    assert!(contract.state.rewards[0].claimed);
    assert_eq!(contract.state.players[0].total_xp, xp);
    let after = format!("{:?}", contract.state);
    let again = contract.claim_reward(signer, 1);
    assert!(matches!(again, Err(TournamentError::AlreadyClaimed)));
    assert_eq!(format!("{:?}", contract.state), after);
    let other = contract.claim_reward(signer, 2);
    assert!(matches!(other, Err(TournamentError::NoReward)));
}

#[test]
fn register_is_idempotent_and_usernames_are_unique() {
    let mut contract = fresh();
    let w = wallet(1);
    let v = wallet(2);
    let signer = AccountOwner::Address32([1; 32]);
    let first = contract.register_player(signer, w, "alice".to_string(), T0 + 1);
    assert!(matches!(first, Ok(Response::PlayerRegistered { wallet_address }) if wallet_address == w));
    let row = format!("{:?}", contract.state.players);
    let state = format!("{:?}", contract.state);
    let second = contract.register_player(signer, w, "alice".to_string(), T0 + 9);
    assert!(matches!(second, Ok(Response::PlayerRegistered { wallet_address }) if wallet_address == w));
    assert_eq!(format!("{:?}", contract.state.players), row);
    assert_eq!(format!("{:?}", contract.state), state);

    let taken = contract.register_player(AccountOwner::Address32([2; 32]), v, "alice".to_string(), T0 + 2);
    assert!(matches!(taken, Err(TournamentError::UsernameTaken)));
    assert_eq!(format!("{:?}", contract.state), state);

    let renamed = contract.register_player(AccountOwner::Address32([3; 32]), w, "carol".to_string(), T0 + 3);
    assert!(matches!(renamed, Ok(Response::PlayerRegistered { .. })));
    assert_eq!(contract.state.players.len(), 1);
    assert_eq!(contract.state.players[0].username, "alice");
    assert_eq!(contract.state.players[0].registered_at, T0 + 1);
    assert_eq!(contract.state.signer_to_wallet.len(), 2);
    assert_eq!(contract.state.username_to_wallet.len(), 1);

    let taken_by_known = contract.register_player(signer, v, "alice".to_string(), T0 + 4);
    assert!(matches!(taken_by_known, Err(TournamentError::UsernameTaken)));
    let bob = contract.register_player(signer, v, "bob".to_string(), T0 + 5);
    assert!(matches!(bob, Ok(Response::PlayerRegistered { wallet_address }) if wallet_address == v));
    assert_eq!(contract.state.signer_to_wallet.len(), 2);
    assert_eq!(contract.get_wallet_for_signer(&signer), Some(v));
    assert_eq!(contract.state.players[1].username, "bob");
    assert_eq!(contract.state.players[1].total_xp, 0);
    assert_eq!(contract.state.players[1].best_time_ms, None);
}

#[test]
fn auto_bind_synthesizes_the_default_username() {
    let mut contract = fresh();
    let mut w = [0u8; 20];
    w[0] = 0x0f;
    w[1] = 0xa0;
    w[2] = 0x00;
    w[3] = 0xff;
    w[4] = 0x77;
    let signer = AccountOwner::Address20(w);
    assert_eq!(contract.get_wallet_for_signer(&signer), None);
    assert_eq!(contract.resolve_wallet(&signer), Some(w));
    contract.submit_run(signer, run(1, 10_000, true), T0 + 1).unwrap();
    assert_eq!(contract.get_wallet_for_signer(&signer), Some(w));
    assert_eq!(contract.state.players[0].username, "Player_0fa000ff");
    assert_eq!(contract.state.username_to_wallet[0].username, "Player_0fa000ff");
    assert_eq!(contract.state.username_to_wallet[0].wallet_address, w);
}

#[test]
fn dispatcher_routes_and_reports() {
    let mut contract = fresh();
    let w = wallet(4);
    let signer = Some(AccountOwner::Address20(w));
    let before = format!("{:?}", contract.state);
    let anonymous = contract.execute_operation(None, Operation::BootstrapTournament, T0);
    assert!(matches!(anonymous, Response::Error { ref message } if message == "Not authenticated"));
    assert_eq!(format!("{:?}", contract.state), before);

    let registered = contract.execute_operation(
        signer,
        Operation::RegisterPlayer { wallet_address: w, username: "dora".to_string() },
        T0 + 1,
    );
    assert!(matches!(registered, Response::PlayerRegistered { wallet_address } if wallet_address == w));
    let submitted = contract.execute_operation(
        signer,
        Operation::SubmitRun { tournament_id: 1, time_ms: 60_000, score: 7, coins: 1, deaths: 0, completed: true },
        T0 + 2,
    );
    assert!(matches!(
        submitted,
        Response::RunSubmitted { run_id: 1, xp_earned: 250, new_best: true, rank: 1 }
    ));
    let early = contract.execute_operation(signer, Operation::EndTournament { tournament_id: 1 }, T0 + 3);
    assert!(matches!(
        early,
        Response::Error { ref message }
            if message == "Tournament cannot be finalized yet. Ends at timestamp 1701296000000000"
    ));
    let ended = contract.execute_operation(signer, Operation::EndTournament { tournament_id: 1 }, T0 + 15 * DAY);
    assert!(matches!(ended, Response::TournamentEnded { id: 1, winner_count: 1 }));
    let claimed = contract.execute_operation(signer, Operation::ClaimReward { tournament_id: 1 }, T0 + 16 * DAY);
    assert!(matches!(claimed, Response::RewardClaimed { tournament_id: 1, xp_amount: 4000 }));
    let again = contract.execute_operation(signer, Operation::ClaimReward { tournament_id: 1 }, T0 + 16 * DAY);
    assert!(matches!(again, Response::Error { ref message } if message == "Reward already claimed"));
    let created = contract.execute_operation(
        signer,
        Operation::CreateTournament {
            title: "t".into(),
            description: "d".into(),
            maze_seed: "m".into(),
            difficulty: Difficulty::Nightmare,
            duration_days: 0,
            xp_reward_pool: 1,
        },
        T0,
    );
    assert!(matches!(
        created,
        Response::Error { ref message } if message == "Tournament duration must be at least one day"
    ));
    let boot = contract.execute_operation(signer, Operation::BootstrapTournament, T0 + 17 * DAY);
    assert!(matches!(boot, Response::TournamentBootstrapped { id: 1, already_existed: true, .. }));
}

#[test]
fn every_refusal_has_its_message() {
    assert_eq!(TournamentError::NotAuthenticated.message(), "Not authenticated");
    assert_eq!(
        TournamentError::NotRegistered.message(),
        "Player not registered. Call registerPlayer first."
    );
    assert_eq!(TournamentError::UsernameTaken.message(), "Username already taken");
    assert_eq!(TournamentError::TournamentNotFound.message(), "Tournament not found");
    assert_eq!(TournamentError::TournamentNotActive.message(), "Tournament is not active");
    assert_eq!(
        TournamentError::NotYetDue { end_time: 0 }.message(),
        "Tournament cannot be finalized yet. Ends at timestamp 0"
    );
    assert_eq!(
        TournamentError::NotYetDue { end_time: u64::MAX }.message(),
        "Tournament cannot be finalized yet. Ends at timestamp 18446744073709551615"
    );
    assert_eq!(TournamentError::AlreadyEnded.message(), "Tournament already ended");
    assert_eq!(TournamentError::NoReward.message(), "No reward found for this tournament");
    assert_eq!(TournamentError::AlreadyClaimed.message(), "Reward already claimed");
    assert_eq!(
        TournamentError::InvalidDuration.message(),
        "Tournament duration must be at least one day"
    );
    assert_eq!(TournamentError::InvalidTimes.message(), "Tournament end time is out of range");
}

fn assert_usernames_unique(contract: &LabyrinthTournamentContract) {
    let players = &contract.state.players;
    for (i, player) in players.iter().enumerate() {
        assert!(players[..i].iter().all(|other| other.username != player.username));
        let entry = contract
            .state
            .username_to_wallet
            .iter()
            .find(|entry| entry.username == player.username)
            .unwrap();
        assert_eq!(entry.wallet_address, player.wallet_address);
    }
    assert_eq!(contract.state.username_to_wallet.len(), players.len());
}

#[test]
fn a_taken_default_username_is_not_given_twice() {
    let mut contract = fresh();
    let mut a = [7u8; 20];
    let mut b = [7u8; 20];
    a[19] = 1;
    b[19] = 2;
    contract.submit_run(AccountOwner::Address20(a), run(1, 10_000, true), T0 + 1).unwrap();
    assert_eq!(contract.state.players[0].username, "Player_07070707");

    let before = format!("{:?}", contract.state);
    assert_eq!(contract.resolve_wallet(&AccountOwner::Address20(b)), Some(b));
    assert_eq!(contract.resolve_submitter(&AccountOwner::Address20(b)), None);
    let refused = contract.submit_run(AccountOwner::Address20(b), run(1, 20_000, true), T0 + 2);
    assert!(matches!(refused, Err(TournamentError::NotRegistered)));
    let refused = contract.submit_run(AccountOwner::Address20(b), run(9, 20_000, true), T0 + 2);
    assert!(matches!(refused, Err(TournamentError::NotRegistered)));
    let refused = contract.forward_run(AccountOwner::Address20(b), run(1, 20_000, true), T0 + 2);
    assert!(matches!(refused, Err(TournamentError::NotRegistered)));
    let refused = contract.get_or_create_player(AccountOwner::Address20(b), b, T0 + 2);
    assert!(matches!(refused, Err(TournamentError::NotRegistered)));
    let told = contract.execute_operation(
        Some(AccountOwner::Address20(b)),
        Operation::SubmitRun { tournament_id: 1, time_ms: 1, score: 1, coins: 1, deaths: 0, completed: true },
        T0 + 2,
    );
    assert!(matches!(
        told,
        Response::Error { ref message } if message == "Player not registered. Call registerPlayer first."
    ));
    assert_eq!(format!("{:?}", contract.state), before);
    assert!(contract.state.is_well_formed());

    let taken =
        contract.register_player(AccountOwner::Address20(b), b, "Player_07070707".to_string(), T0 + 3);
    assert!(matches!(taken, Err(TournamentError::UsernameTaken)));
    contract.register_player(AccountOwner::Address20(b), b, "second".to_string(), T0 + 3).unwrap();
    let accepted = contract.submit_run(AccountOwner::Address20(b), run(1, 20_000, true), T0 + 4);
    assert!(matches!(accepted, Ok(Response::RunSubmitted { run_id: 2, rank: 2, .. })));
    assert_eq!(contract.state.players[0].wallet_address, a);
    assert_eq!(contract.state.players[0].username, "Player_07070707");
    assert_eq!(contract.state.players[1].username, "second");
    assert_eq!(contract.state.username_to_wallet[0].wallet_address, a);
    assert_usernames_unique(&contract);
    assert!(contract.state.is_well_formed());
}

#[test]
fn a_registered_name_is_not_taken_over_by_a_default_name() {
    let mut contract = fresh();
    let owner = wallet(1);
    let signer = AccountOwner::Reserved(1);
    let mut other = [0u8; 20];
    other[0] = 0x0b;
    let registered = contract.register_player(signer, owner, "Player_0b000000".to_string(), T0 + 1);
    assert!(matches!(registered, Ok(Response::PlayerRegistered { wallet_address }) if wallet_address == owner));

    let refused = contract.submit_run(AccountOwner::Address20(other), run(1, 5_000, true), T0 + 2);
    assert!(matches!(refused, Err(TournamentError::NotRegistered)));
    contract.submit_run(signer, run(1, 40_000, true), T0 + 3).unwrap();
    contract.submit_run(AccountOwner::Address20(wallet(2)), run(1, 30_000, true), T0 + 4).unwrap();
    contract.end_tournament(1, T0 + 15 * DAY).unwrap();
    contract.claim_reward(signer, 1).unwrap();

    let profile = format!("{:?}", contract.state.players[0]);
    let index = format!("{:?}", contract.state.username_to_wallet);
    let again = contract.register_player(signer, owner, "Player_0b000000".to_string(), T0 + 16 * DAY);
    assert!(matches!(again, Ok(Response::PlayerRegistered { wallet_address }) if wallet_address == owner));
    assert_eq!(format!("{:?}", contract.state.players[0]), profile);
    assert_eq!(format!("{:?}", contract.state.username_to_wallet), index);
    assert_eq!(contract.get_wallet_for_signer(&signer), Some(owner));
    assert_eq!(contract.state.players[0].total_xp, 266 + 2500);
    assert_eq!(contract.state.players[0].registered_at, T0 + 1);
    assert_eq!(contract.state.players.len(), 2);
    assert_usernames_unique(&contract);
    assert!(contract.state.is_well_formed());
}

#[test]
fn a_forwarded_run_under_a_taken_username_is_dropped() {
    let mut contract = fresh();
    contract.register_player(AccountOwner::Reserved(1), wallet(1), "alice".to_string(), T0).unwrap();
    let message = |who: u8, username: &str| Message::ApplyRun {
        wallet_address: wallet(who),
        username: username.to_string(),
        tournament_id: 1,
        time_ms: 60_000,
        score: 3,
        coins: 1,
        deaths: 0,
        completed: true,
    };
    let before = format!("{:?}", contract.state);
    contract.execute_message(message(2, "alice"), T0 + 1);
    assert_eq!(format!("{:?}", contract.state), before);
    assert!(contract.try_message(message(2, "alice"), T0 + 1));
    assert_eq!(format!("{:?}", contract.state), before);
    assert!(!contract.check_forwarded(&wallet(2), &"alice".to_string(), 1, T0 + 1));
    assert!(contract.check_forwarded(&wallet(2), &"bob".to_string(), 1, T0 + 1));
    assert!(contract.check_forwarded(&wallet(1), &"anything".to_string(), 1, T0 + 1));
    assert!(!contract.check_forwarded(&wallet(1), &"alice".to_string(), 2, T0 + 1));

    contract.execute_message(message(2, "bob"), T0 + 2);
    contract.execute_message(message(1, "alias"), T0 + 3);
    assert_eq!(contract.state.runs.len(), 2);
    assert_eq!(contract.state.runs[1].username, "alias");
    assert_eq!(contract.state.players.len(), 2);
    assert_eq!(contract.state.players[0].username, "alice");
    assert_eq!(contract.state.players[1].username, "bob");
    assert_usernames_unique(&contract);
    assert!(contract.state.is_well_formed());
}

#[test]
fn stored_runs_are_never_rewritten() {
    let mut contract = fresh();
    let signer = AccountOwner::Address20(wallet(1));
    contract.submit_run(signer, run(1, 90_000, true), T0 + 1).unwrap();
    contract.submit_run(signer, run(1, 80_000, false), T0 + 2).unwrap();
    let first = format!("{:?}", &contract.state.runs[..2]);
    contract.register_player(AccountOwner::Reserved(1), wallet(1), "late".to_string(), T0 + 3).unwrap();
    contract.submit_run(AccountOwner::Reserved(1), run(1, 70_000, true), T0 + 4).unwrap();
    contract.create_tournament("x".into(), "".into(), "s".into(), Difficulty::Easy, 1, 5, T0 + 5).unwrap();
    contract.end_tournament(1, T0 + 15 * DAY).unwrap();
    contract.claim_reward(signer, 1).unwrap();
    contract.bootstrap_tournament(T0 + 16 * DAY).unwrap();
    assert_eq!(format!("{:?}", &contract.state.runs[..2]), first);
    assert_eq!(contract.state.runs.len(), 3);
    assert_eq!(contract.state.runs[2].id, 3);
    assert_eq!(contract.state.runs[2].username, "Player_01000000");
    assert_eq!(contract.state.next_run_id, 4);
}

#[test]
fn enrolling_creates_a_profile_once() {
    let mut contract = fresh();
    let w = wallet(6);
    let first = contract.get_or_create_player(AccountOwner::Reserved(6), w, T0 + 1).unwrap();
    assert_eq!(first.wallet_address, w);
    assert_eq!(first.username, "Player_06000000");
    assert_eq!(first.registered_at, T0 + 1);
    assert_eq!((first.total_xp, first.total_runs, first.tournaments_played), (0, 0, 0));
    assert_eq!(contract.get_wallet_for_signer(&AccountOwner::Reserved(6)), Some(w));
    let again = contract.get_or_create_player(AccountOwner::Reserved(7), w, T0 + 2).unwrap();
    assert_eq!(again.registered_at, T0 + 1);
    assert_eq!(contract.state.players.len(), 1);
    assert_eq!(contract.state.username_to_wallet.len(), 1);
    assert_eq!(contract.state.signer_to_wallet.len(), 2);
    assert_eq!(contract.resolve_submitter(&AccountOwner::Reserved(7)), Some(w));
    assert_eq!(contract.resolve_submitter(&AccountOwner::Reserved(8)), None);
    assert_usernames_unique(&contract);
    assert!(contract.state.is_well_formed());
}
