use labyrinth_tournament::pipeline::RunInput;
use labyrinth_tournament::service::{register_operation, wallet_or_zero};
use labyrinth_tournament::{
    AccountOwner, Difficulty, InitializationArgument, LabyrinthState, LabyrinthTournamentContract,
    LabyrinthTournamentService, Message, Operation, TournamentStatus,
};

const T0: u64 = 1_700_000_000_000_000;
const DAY: u64 = 86_400_000_000;

fn wallet(tag: u8) -> [u8; 20] {
    let mut bytes = [0u8; 20];
    bytes[0] = tag;
    bytes
}

fn address(tag: u8) -> String {
    format!("0x{:02x}{}", tag, "00".repeat(19))
}

fn run(tournament_id: u64, time_ms: u64) -> RunInput {
    RunInput { tournament_id, time_ms, score: 1, coins: 0, deaths: 1, completed: true }
}

fn played() -> LabyrinthTournamentService {
    let mut contract = LabyrinthTournamentContract::load(LabyrinthState::new());
    contract.instantiate(InitializationArgument { hub_chain_id: "hub".to_string() }, T0);
    contract
        .register_player(AccountOwner::Address32([1; 32]), wallet(1), "alice".to_string(), T0)
        .unwrap();
    contract.submit_run(AccountOwner::Address32([1; 32]), run(1, 40_000), T0 + 1).unwrap();
    contract.submit_run(AccountOwner::Address20(wallet(2)), run(1, 30_000), T0 + 2).unwrap();
    contract.submit_run(AccountOwner::Address20(wallet(3)), run(1, 50_000), T0 + 3).unwrap();
    contract
        .create_tournament("b".into(), "".into(), "s2".into(), Difficulty::Hard, 2, 1_000, T0 + DAY)
        .unwrap();
    contract
        .create_tournament("c".into(), "".into(), "s3".into(), Difficulty::Easy, 1, 100, T0 + DAY)
        .unwrap();
    contract.submit_run(AccountOwner::Address20(wallet(2)), run(3, 10_000), T0 + DAY + 1).unwrap();
    contract.end_tournament(3, T0 + 2 * DAY).unwrap();
    contract.end_tournament(1, T0 + 15 * DAY).unwrap();
    LabyrinthTournamentService::new(contract.store())
}

#[test]
fn placeholder_stands_in_for_a_missing_first_tournament() {
    let service = LabyrinthTournamentService::new(LabyrinthState::new());
    let t = service.tournament(1).unwrap();
    assert_eq!(t.id, 1);
    assert_eq!(t.title, "February 2026 Championship");
    assert_eq!(t.description, "15-day tournament - fastest time wins!");
    assert_eq!(t.maze_seed, "labyrinth-feb-2026");
    assert_eq!(t.start_time, 1_769_904_000_000_000);
    assert_eq!(t.end_time, 1_769_904_000_000_000 + 15 * 24 * 60 * 60 * 1_000_000);
    assert_eq!(t.created_at, t.start_time);
    assert_eq!(t.xp_reward_pool, 10_000);
    assert_eq!(t.status, TournamentStatus::Active);
    assert_eq!(t.difficulty, Difficulty::Medium);
    assert!(service.tournament(2).is_none());
    assert!(service.tournament(0).is_none());
    assert_eq!(service.active_tournament().unwrap().maze_seed, "labyrinth-feb-2026");
    assert!(service.tournaments(None).is_empty());
    assert!(service.leaderboard(1, None).is_empty());
    let stats = service.stats();
    assert_eq!((stats.total_players, stats.total_tournaments, stats.total_runs), (0, 0, 0));
    assert_eq!(stats.active_tournament_id, None);
}

#[test]
fn tournaments_by_id_and_status() {
    let service = played();
    assert_eq!(service.tournament(2).unwrap().maze_seed, "s2");
    assert_eq!(service.tournament(1).unwrap().status, TournamentStatus::Ended);
    assert!(service.tournament(4).is_none());
    let all: Vec<u64> = service.tournaments(None).iter().map(|t| t.id).collect();
    assert_eq!(all, vec![2, 3, 1]);
    let ended: Vec<u64> = service.tournaments(Some(TournamentStatus::Ended)).iter().map(|t| t.id).collect();
    assert_eq!(ended, vec![3, 1]);
    let active: Vec<u64> = service.tournaments(Some(TournamentStatus::Active)).iter().map(|t| t.id).collect();
    assert_eq!(active, vec![2]);
    assert_eq!(service.active_tournament().unwrap().title, "February 2026 Championship");
}

#[test]
fn active_tournament_follows_the_handle() {
    let mut contract = LabyrinthTournamentContract::load(LabyrinthState::new());
    contract.bootstrap_tournament(T0).unwrap();
    contract
        .create_tournament("b".into(), "".into(), "s2".into(), Difficulty::Hard, 2, 1_000, T0 + 1)
        .unwrap();
    let service = LabyrinthTournamentService::new(contract.store());
    assert_eq!(service.active_tournament().unwrap().id, 2);
    let mut contract = LabyrinthTournamentContract::load(service.state);
    contract.end_tournament(2, T0 + 1 + 2 * DAY).unwrap();
    let service = LabyrinthTournamentService::new(contract.store());
    assert_eq!(service.state.active_tournament_id, None);
    assert_eq!(service.active_tournament().unwrap().maze_seed, "labyrinth-feb-2026");
}

#[test]
fn leaderboard_with_and_without_limit() {
    let service = played();
    let all: Vec<u8> = service.leaderboard(1, None).iter().map(|e| e.wallet_address[0]).collect();
    assert_eq!(all, vec![2, 1, 3]);
    let two: Vec<u32> = service.leaderboard(1, Some(2)).iter().map(|e| e.rank).collect();
    assert_eq!(two, vec![1, 2]);
    assert!(service.leaderboard(1, Some(0)).is_empty());
    assert_eq!(service.leaderboard(1, Some(u32::MAX)).len(), 3);
    assert!(service.leaderboard(2, None).is_empty());
    assert!(service.leaderboard(9, None).is_empty());
    assert_eq!(service.player_rank(1, &address(1)), Some(2));
    assert_eq!(service.player_rank(1, &address(2)), Some(1));
    assert_eq!(service.player_rank(1, &address(9)), None);
    assert_eq!(service.player_rank(2, &address(1)), None);
    assert_eq!(service.player_rank(0, &address(1)), None);
    assert_eq!(service.player_rank(1, "nonsense"), None);
    assert_eq!(service.rank_of_wallet(3, &wallet(2)), Some(1));
}

#[test]
fn players_by_address_and_username() {
    let service = played();
    let alice = service.player(&address(1)).unwrap();
    assert_eq!(alice.username, "alice");
    assert_eq!(alice.total_runs, 1);
    assert_eq!(alice.total_xp, 239 + 2500);
    assert_eq!(service.player(&address(1).to_uppercase().replace("0X", "0x")).unwrap().username, "alice");
    assert!(service.player(&address(7)).is_none());
    assert!(service.player("0x12").is_none());
    assert_eq!(service.player_by_username(&"alice".to_string()).unwrap().wallet_address, wallet(1));
    assert_eq!(
        service.player_by_username(&"Player_02000000".to_string()).unwrap().wallet_address,
        wallet(2)
    );
    assert!(service.player_by_username(&"nobody".to_string()).is_none());
    assert!(service.is_registered(&address(1)));
    assert!(service.is_registered(&address(3)));
    assert!(!service.is_registered(&address(8)));
    assert!(service.is_registered(&"01".repeat(32)));
    assert!(!service.is_registered(&"02".repeat(32)));
    assert!(!service.is_registered("xyz"));
    let row = service.tournament_player(3, &address(2)).unwrap();
    assert_eq!(row.best_time_ms, 10_000);
    assert_eq!(row.total_runs, 1);
    assert!(service.tournament_player(2, &address(2)).is_none());
    assert!(service.tournament_player(1, "0xzz").is_none());
    assert_eq!(service.participant_of_wallet(1, &wallet(3)).unwrap().best_time_ms, 50_000);
}

#[test]
fn runs_and_the_feed() {
    let service = played();
    assert_eq!(service.run(1).unwrap().username, "alice");
    assert_eq!(service.run(4).unwrap().tournament_id, 3);
    assert!(service.run(0).is_none());
    assert!(service.run(5).is_none());
    let feed: Vec<u64> = service.recent_runs(None).iter().map(|r| r.id).collect();
    assert_eq!(feed, vec![4, 3, 2, 1]);
    let two: Vec<u64> = service.recent_runs(Some(2)).iter().map(|r| r.id).collect();
    assert_eq!(two, vec![4, 3]);
    assert!(service.recent_runs(Some(0)).is_empty());
    let stats = service.stats();
    assert_eq!(stats.total_runs, 4);
    assert_eq!(stats.total_tournaments, 3);
    assert_eq!(stats.total_players, 0);
    assert_eq!(stats.active_tournament_id, None);
}

#[test]
fn the_feed_keeps_the_latest_hundred() {
    let mut contract = LabyrinthTournamentContract::load(LabyrinthState::new());
    contract.bootstrap_tournament(T0).unwrap();
    for k in 0..130u64 {
        contract.submit_run(AccountOwner::Address20(wallet(1)), run(1, 1_000 + k), T0 + 1 + k).unwrap();
    }
    let service = LabyrinthTournamentService::new(contract.store());
    assert_eq!(service.state.recent_runs.len(), 100);
    assert_eq!(service.state.recent_runs[0], 130);
    assert_eq!(service.state.recent_runs[99], 31);
    assert_eq!(service.recent_runs(None).len(), 20);
    assert_eq!(service.recent_runs(None)[19].id, 111);
    assert_eq!(service.recent_runs(Some(1_000)).len(), 100);
    assert_eq!(service.stats().total_players, 13);
    assert_eq!(service.state.tournaments[0].total_runs, 130);
    assert_eq!(service.state.tournaments[0].participant_count, 1);
    assert_eq!(service.state.tournament_players[0].player.total_runs, 130);
}

#[test]
fn rewards_by_tournament_and_by_player() {
    let service = played();
    let first = service.reward(1, &address(2)).unwrap();
    assert_eq!((first.rank, first.xp_amount, first.claimed), (1, 4000, false));
    assert_eq!(service.reward(1, &address(3)).unwrap().xp_amount, 1500);
    assert!(service.reward(2, &address(2)).is_none());
    assert!(service.reward(1, "junk").is_none());
    let mine: Vec<(u64, u64)> =
        service.player_rewards(&address(2)).iter().map(|r| (r.tournament_id, r.xp_amount)).collect();
    assert_eq!(mine, vec![(1, 4000), (3, 40)]);
    assert_eq!(service.player_rewards(&address(1)).len(), 1);
    assert!(service.player_rewards(&address(9)).is_empty());
    assert!(service.player_rewards("junk").is_empty());
    assert_eq!(service.rewards_of_wallet(&wallet(3)).len(), 1);
    assert_eq!(service.reward_of_wallet(3, &wallet(2)).unwrap().rank, 1);
}

#[test]
fn registrations_for_short_byte_strings_use_the_zero_wallet() {
    assert_eq!(wallet_or_zero(&vec![7u8; 20]), [7u8; 20]);
    assert_eq!(wallet_or_zero(&vec![7u8; 19]), [0u8; 20]);
    assert_eq!(wallet_or_zero(&vec![7u8; 21]), [0u8; 20]);
    assert_eq!(wallet_or_zero(&Vec::new()), [0u8; 20]);
    let operation = register_operation((1..=20).collect(), "eve".to_string());
    assert!(matches!(
        operation,
        Operation::RegisterPlayer { wallet_address, ref username }
            if username == "eve" && wallet_address[0] == 1 && wallet_address[19] == 20
    ));
}

#[test]
fn forwarded_runs_are_applied_or_dropped() {
    let mut contract = LabyrinthTournamentContract::load(LabyrinthState::new());
    contract.bootstrap_tournament(T0).unwrap();
    let message = |tournament_id: u64, time_ms: u64| Message::ApplyRun {
        wallet_address: wallet(5),
        username: "remote".to_string(),
        tournament_id,
        time_ms,
        score: 3,
        coins: 1,
        deaths: 0,
        completed: true,
    };
    let before = format!("{:?}", contract.state);
    contract.execute_message(message(2, 1_000), T0 + 1);
    contract.execute_message(message(1, 1_000), T0 + 15 * DAY);
    assert_eq!(format!("{:?}", contract.state), before);
    contract.execute_message(message(1, 60_000), T0 + 1);
    assert_eq!(contract.state.runs.len(), 1);
    assert_eq!(contract.state.runs[0].username, "remote");
    assert_eq!(contract.state.runs[0].xp_earned, 250);
    assert_eq!(contract.state.players.len(), 1);
    assert_eq!(contract.state.players[0].username, "remote");
    assert_eq!(contract.state.players[0].registered_at, T0 + 1);
    assert_eq!(contract.state.players[0].total_xp, 250);
    assert_eq!(contract.state.username_to_wallet[0].wallet_address, wallet(5));
    assert!(contract.state.signer_to_wallet.is_empty());
    assert_eq!(contract.state.tournaments[0].participant_count, 1);
    assert_eq!(contract.state.leaderboards[0][0].rank, 1);
    contract.execute_message(message(1, 50_000), T0 + 2);
    assert_eq!(contract.state.players.len(), 1);
    assert_eq!(contract.state.players[0].tournaments_played, 1);
    assert_eq!(contract.state.players[0].total_runs, 2);
    assert_eq!(contract.state.tournaments[0].total_runs, 2);
    assert_eq!(contract.state.leaderboards[0][0].best_time_ms, 50_000);
}
