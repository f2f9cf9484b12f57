use labyrinth_tournament::pipeline::RunInput;
use labyrinth_tournament::state::{SignerBinding, TournamentPlayerRow, UsernameEntry};
use labyrinth_tournament::{
    AccountOwner, Difficulty, GameRun, LabyrinthState, LabyrinthTournamentContract,
    LabyrinthTournamentService, LeaderboardEntry, Message, Operation, Player, TournamentReward,
    TournamentStatus,
};

const T0: u64 = 1_700_000_000_000_000;
const DAY: u64 = 86_400_000_000;

fn wallet(tag: u8) -> [u8; 20] {
    let mut bytes = [0u8; 20];
    bytes[0] = tag;
    bytes
}

fn run(tournament_id: u64, time_ms: u64, completed: bool) -> RunInput {
    RunInput { tournament_id, time_ms, score: time_ms % 97, coins: 0, deaths: 2, completed }
}

fn played() -> LabyrinthState {
    let mut contract = LabyrinthTournamentContract::load(LabyrinthState::new());
    assert!(contract.state.is_well_formed());
    contract.bootstrap_tournament(T0).unwrap();
    assert!(contract.state.is_well_formed());
    contract.register_player(AccountOwner::Reserved(1), wallet(1), "alice".into(), T0).unwrap();
    assert!(contract.state.is_well_formed());
    for k in 0..12u64 {
        let who = AccountOwner::Address20(wallet((k % 5) as u8 + 2));
        contract.submit_run(who, run(1, 100_000 - 1_000 * k, k % 3 != 0), T0 + k).unwrap();
        assert!(contract.state.is_well_formed());
    }
    contract.submit_run(AccountOwner::Reserved(1), run(1, 50_000, true), T0 + 20).unwrap();
    contract.create_tournament("b".into(), "".into(), "s".into(), Difficulty::Nightmare, 1, 77, T0).unwrap();
    assert!(contract.state.is_well_formed());
    contract.submit_run(AccountOwner::Reserved(1), run(2, 5_000, true), T0 + 30).unwrap();
    contract.end_tournament(2, T0 + DAY).unwrap();
    assert!(contract.state.is_well_formed());
    contract.claim_reward(AccountOwner::Reserved(1), 2).unwrap();
    assert!(contract.state.is_well_formed());
    contract.store()
}

#[test]
fn every_operation_leaves_a_well_formed_store() {
    let state = played();
    assert!(state.is_well_formed());
    assert_eq!(state.runs.len(), 14);
    assert_eq!(state.players.len(), 6);
    assert_eq!(state.tournaments[0].participant_count, 6);
    assert_eq!(state.tournaments[0].total_runs, 13);
    assert_eq!(state.tournaments[1].participant_count, 1);
    for player in &state.players {
        let earned: u64 =
            state.runs.iter().filter(|r| r.wallet_address == player.wallet_address).map(|r| r.xp_earned).sum();
        let awarded: u64 = state
            .rewards
            .iter()
            .filter(|r| r.wallet_address == player.wallet_address)
            .map(|r| r.xp_amount)
            .sum();
        assert_eq!(player.total_xp, earned + awarded);
    }
    let ids: Vec<u64> = state.runs.iter().map(|r| r.id).collect();
    assert_eq!(ids, (1..=14).collect::<Vec<u64>>());
}

#[test]
fn the_dispatcher_and_messages_leave_a_well_formed_store() {
    let mut contract = LabyrinthTournamentContract::restore(played()).unwrap();
    let signer = Some(AccountOwner::Address20(wallet(9)));
    let response = contract.try_operation(
        signer,
        Operation::SubmitRun { tournament_id: 1, time_ms: 1, score: 1, coins: 1, deaths: 0, completed: true },
        T0 + 40,
    );
    assert!(response.is_some());
    assert!(contract.state.is_well_formed());
    let fits = contract.try_message(
        Message::ApplyRun {
            wallet_address: wallet(10),
            username: "far".into(),
            tournament_id: 1,
            time_ms: 2,
            score: 0,
            coins: 0,
            deaths: 9,
            completed: true,
        },
        T0 + 41,
    );
    assert!(fits);
    assert!(contract.state.is_well_formed());
    let forwarded = contract.forward_run(AccountOwner::Address20(wallet(11)), run(1, 3, true), T0 + 42);
    assert!(matches!(
        forwarded,
        Ok(Message::ApplyRun { wallet_address, ref username, tournament_id: 1, time_ms: 3, .. })
            if wallet_address == wallet(11) && username == "Player_0b000000"
    ));
    assert!(contract.state.is_well_formed());
    assert_eq!(contract.state.runs.len(), 16);
    assert!(contract.forward_run(AccountOwner::Reserved(200), run(1, 3, true), T0).is_err());
    let ended = contract.try_operation(signer, Operation::EndTournament { tournament_id: 1 }, T0 + 15 * DAY);
    assert!(ended.is_some());
    assert!(contract.state.is_well_formed());
    assert_eq!(contract.state.rewards.len(), 6);
}

#[test]
fn an_operation_without_room_changes_nothing() {
    let mut contract = LabyrinthTournamentContract::load(LabyrinthState::new());
    let signer = AccountOwner::Address20(wallet(1));
    let lazy = RunInput { tournament_id: 0, time_ms: 500_000, score: 0, coins: 0, deaths: 6, completed: false };
    // two prizes of two fifths of the largest pool, and a third that stops a hundred short of the limit
    for id in 1..=2u64 {
        contract.create_tournament("a".into(), "".into(), "s".into(), Difficulty::Easy, 1, u64::MAX, T0).unwrap();
        contract.submit_run(signer, RunInput { tournament_id: id, ..lazy }, T0 + 1).unwrap();
        contract.end_tournament(id, T0 + DAY).unwrap();
    }
    let so_far = contract.state.players[0].total_xp;
    assert_eq!(so_far, 2 * 7_378_697_629_483_820_646 + 2 * 37);
    let target = u64::MAX - 100 - (so_far + 37);
    let pool = (target as u128 * 100 / 40) as u64;
    contract.create_tournament("c".into(), "".into(), "s".into(), Difficulty::Easy, 1, pool, T0).unwrap();
    contract.submit_run(signer, RunInput { tournament_id: 3, ..lazy }, T0 + 1).unwrap();
    contract.end_tournament(3, T0 + DAY).unwrap();
    let total = contract.state.players[0].total_xp;
    assert!(u64::MAX - 101 <= total && total <= u64::MAX - 100);
    contract.create_tournament("d".into(), "".into(), "s".into(), Difficulty::Medium, 1, 0, T0).unwrap();
    assert!(contract.state.is_well_formed());

    let before = format!("{:?}", contract.state);
    let big = RunInput { tournament_id: 4, time_ms: 60_000, score: 1, coins: 1, deaths: 0, completed: true };
    assert!(!contract.submission_has_room(&signer, big, T0 + 2));
    let response = contract.try_operation(
        Some(signer),
        Operation::SubmitRun { tournament_id: 4, time_ms: 60_000, score: 1, coins: 1, deaths: 0, completed: true },
        T0 + 2,
    );
    assert!(response.is_none());
    assert_eq!(format!("{:?}", contract.state), before);
    let forwarded = Message::ApplyRun {
        wallet_address: wallet(1),
        username: "x".into(),
        tournament_id: 4,
        time_ms: 60_000,
        score: 1,
        coins: 1,
        deaths: 0,
        completed: true,
    };
    assert!(!contract.forwarded_has_room(&forwarded, T0 + 2));
    assert!(!contract.try_message(forwarded, T0 + 2));
    assert_eq!(format!("{:?}", contract.state), before);

    // a refusal needs no room, nor does another player, nor a run that earns little
    assert!(contract.submission_has_room(&signer, RunInput { tournament_id: 9, ..big }, T0 + 2));
    assert!(contract.submission_has_room(&signer, big, T0 + 2 * DAY));
    assert!(contract.submission_has_room(&AccountOwner::Reserved(3), big, T0 + 2));
    assert!(contract.submission_has_room(&AccountOwner::Address20(wallet(3)), big, T0 + 2));
    let small = RunInput { tournament_id: 4, time_ms: 500_000, score: 0, coins: 0, deaths: 6, completed: false };
    assert!(contract.submission_has_room(&signer, small, T0 + 2));
    let accepted = contract.try_operation(
        Some(signer),
        Operation::SubmitRun { tournament_id: 4, time_ms: 500_000, score: 0, coins: 0, deaths: 6, completed: false },
        T0 + 2,
    );
    assert!(matches!(
        accepted,
        Some(labyrinth_tournament::Response::RunSubmitted { xp_earned: 50, .. })
    ));
    assert!(contract.state.is_well_formed());
    assert!(contract.operation_has_room(&signer, &Operation::BootstrapTournament, T0));
    assert!(contract.try_operation(None, Operation::BootstrapTournament, T0).is_some());
}

#[test]
fn prizes_without_room_are_not_handed_out() {
    let mut contract = LabyrinthTournamentContract::load(LabyrinthState::new());
    contract.create_tournament("a".into(), "".into(), "s".into(), Difficulty::Easy, 1, u64::MAX, T0).unwrap();
    contract.create_tournament("b".into(), "".into(), "s".into(), Difficulty::Easy, 1, u64::MAX, T0).unwrap();
    contract.create_tournament("c".into(), "".into(), "s".into(), Difficulty::Easy, 1, u64::MAX, T0).unwrap();
    let signer = AccountOwner::Address20(wallet(1));
    for id in 1..=3u64 {
        contract.submit_run(signer, run(id, 1, true), T0 + 1).unwrap();
    }
    assert!(contract.operation_has_room(&signer, &Operation::EndTournament { tournament_id: 1 }, T0 + DAY));
    assert!(contract.try_operation(Some(signer), Operation::EndTournament { tournament_id: 1 }, T0 + DAY).is_some());
    assert!(contract.operation_has_room(&signer, &Operation::EndTournament { tournament_id: 2 }, T0 + DAY));
    assert!(contract.try_operation(Some(signer), Operation::EndTournament { tournament_id: 2 }, T0 + DAY).is_some());
    assert!(!contract.operation_has_room(&signer, &Operation::EndTournament { tournament_id: 3 }, T0 + DAY));
    assert!(contract.operation_has_room(&signer, &Operation::EndTournament { tournament_id: 3 }, T0));
    let before = format!("{:?}", contract.state);
    assert!(contract.try_operation(Some(signer), Operation::EndTournament { tournament_id: 3 }, T0 + DAY).is_none());
    assert_eq!(format!("{:?}", contract.state), before);
    assert!(contract.try_operation(Some(signer), Operation::EndTournament { tournament_id: 3 }, T0).is_some());
    assert!(contract.state.is_well_formed());
}

#[test]
fn opening_a_tournament_has_room() {
    let contract = LabyrinthTournamentContract::restore(played()).unwrap();
    let operation = Operation::CreateTournament {
        title: "t".into(),
        description: "d".into(),
        maze_seed: "m".into(),
        difficulty: Difficulty::Easy,
        duration_days: 1,
        xp_reward_pool: 1,
    };
    assert!(contract.operation_has_room(&AccountOwner::Reserved(0), &operation, T0));
    let mut full = LabyrinthState::new();
    full.next_tournament_id = u64::MAX;
    assert!(LabyrinthTournamentContract::restore(full).is_none());
}

#[test]
fn tampered_stores_are_rejected() {
    let check = |edit: &dyn Fn(&mut LabyrinthState)| {
        let mut state = played();
        edit(&mut state);
        let ok = state.is_well_formed();
        assert_eq!(LabyrinthTournamentContract::restore(state).is_some(), ok);
        ok
    };
    assert!(check(&|_| {}));
    assert!(!check(&|s| s.next_tournament_id += 1));
    assert!(!check(&|s| s.next_run_id -= 1));
    assert!(!check(&|s| s.tournaments[1].id = 7));
    assert!(!check(&|s| s.tournaments[0].end_time = s.tournaments[0].start_time));
    assert!(!check(&|s| s.tournaments[0].participant_count += 1));
    assert!(!check(&|s| s.tournaments[0].total_runs -= 1));
    assert!(!check(&|s| s.tournaments[1].status = TournamentStatus::Active));
    assert!(!check(&|s| s.runs[3].id = 99));
    assert!(!check(&|s| s.runs[3].tournament_id = 3));
    assert!(!check(&|s| s.runs[3].tournament_id = 0));
    assert!(!check(&|s| s.runs[3].xp_earned = 451));
    assert!(!check(&|s| s.runs[3].xp_earned += 1));
    assert!(!check(&|s| s.runs[3].wallet_address = wallet(200)));
    assert!(!check(&|s| {
        s.runs.pop();
    }));
    assert!(!check(&|s| s.players[2].total_xp += 1));
    assert!(!check(&|s| s.players[2].total_runs = 15));
    assert!(!check(&|s| s.players[2].wallet_address = s.players[1].wallet_address));
    assert!(!check(&|s| s.players[0].username = "mallory".into()));
    assert!(!check(&|s| s.players[1].username = s.players[0].username.clone()));
    assert!(!check(&|s| {
        let name = s.players[1].username.clone();
        s.username_to_wallet.iter_mut().find(|e| e.username == name).unwrap().wallet_address =
            s.players[0].wallet_address;
    }));
    assert!(!check(&|s| {
        let copy = Player { ..s.players[0].clone() };
        s.players.push(copy);
    }));
    assert!(!check(&|s| s.username_to_wallet[0].wallet_address = wallet(3)));
    assert!(!check(&|s| s.username_to_wallet[1].username = "alice".into()));
    assert!(!check(&|s| {
        s.username_to_wallet.pop();
    }));
    assert!(!check(&|s| s.username_to_wallet.push(UsernameEntry {
        username: "ghost".into(),
        wallet_address: wallet(77),
    })));
    assert!(!check(&|s| {
        let first = s.signer_to_wallet[0];
        s.signer_to_wallet.push(SignerBinding { signer: first.signer, wallet_address: wallet(3) });
    }));
    assert!(check(&|s| s.signer_to_wallet.push(SignerBinding {
        signer: AccountOwner::Address32([4; 32]),
        wallet_address: wallet(3),
    })));
    assert!(!check(&|s| s.tournament_players[0].tournament_id = 2));
    assert!(!check(&|s| s.tournament_players[0].tournament_id = 5));
    assert!(!check(&|s| s.tournament_players[0].player.total_xp_earned = 450 * 50));
    assert!(!check(&|s| s.tournament_players[1].player.wallet_address = wallet(222)));
    assert!(!check(&|s| {
        let copy = TournamentPlayerRow { ..s.tournament_players[1].clone() };
        s.tournament_players.push(copy);
    }));
    assert!(!check(&|s| s.leaderboards[0].swap(0, 1)));
    assert!(!check(&|s| s.leaderboards[0][2].rank = 0));
    assert!(!check(&|s| s.leaderboards[0][2].wallet_address = wallet(123)));
    assert!(!check(&|s| {
        let w = s.leaderboards[0][1].wallet_address;
        s.leaderboards[0][2].wallet_address = w;
    }));
    assert!(!check(&|s| {
        s.leaderboards.pop();
    }));
    assert!(!check(&|s| s.leaderboards[1].push(LeaderboardEntry {
        rank: 2,
        wallet_address: wallet(2),
        username: "x".into(),
        best_time_ms: u64::MAX,
        best_score: 0,
        total_runs: 0,
        total_xp: 0,
    })));
    assert!(!check(&|s| s.leaderboards[0][2].best_score += 5));
    assert!(!check(&|s| s.leaderboards[0][2].total_runs += 1));
    assert!(!check(&|s| s.leaderboards[0][2].total_xp = 0));
    assert!(!check(&|s| s.leaderboards[0][0].username = "someone".into()));
    assert!(!check(&|s| s.leaderboards[0][5].best_time_ms -= 1));
    assert!(!check(&|s| {
        s.leaderboards[0].pop();
    }));
    assert!(!check(&|s| s.tournament_players[3].player.best_score += 1));
    assert!(!check(&|s| s.tournament_players[3].player.username = "renamed".into()));
    assert!(!check(&|s| s.recent_runs.swap(0, 1)));
    assert!(!check(&|s| {
        s.recent_runs.pop();
    }));
    assert!(!check(&|s| s.recent_runs.push(0)));
    assert!(!check(&|s| s.rewards[0].xp_amount += 1));
    assert!(!check(&|s| s.rewards[0].tournament_id = 1));
    assert!(!check(&|s| s.rewards[0].wallet_address = wallet(99)));
    assert!(check(&|s| s.rewards[0].claimed = false));
    assert!(!check(&|s| {
        let copy = s.rewards[0];
        s.rewards.push(TournamentReward { xp_amount: 0, ..copy });
    }));
    assert!(!check(&|s| s.active_tournament_id = Some(3)));
    assert!(!check(&|s| s.active_tournament_id = Some(0)));
    assert!(check(&|s| s.active_tournament_id = Some(2)));
    assert!(check(&|s| s.hub_chain_id = Some("elsewhere".into())));
    assert!(!check(&|s| {
        let r = GameRun { id: 15, ..s.runs[0].clone() };
        s.runs.push(r);
    }));
}

#[test]
fn the_read_side_restores_only_well_formed_stores() {
    assert!(LabyrinthTournamentService::restore(played()).is_some());
    assert!(LabyrinthTournamentService::restore(LabyrinthState::new()).is_some());
    let mut state = played();
    state.next_run_id = 1;
    assert!(LabyrinthTournamentService::restore(state).is_none());
}

#[test]
fn a_crowded_tournament_keeps_the_fastest_hundred() {
    let mut contract = LabyrinthTournamentContract::load(LabyrinthState::new());
    contract.bootstrap_tournament(T0).unwrap();
    let who = |n: u16| {
        let mut bytes = [0u8; 20];
        bytes[0] = (n >> 8) as u8;
        bytes[1] = n as u8;
        AccountOwner::Address20(bytes)
    };
    for n in 0..100u16 {
        let submitted = contract.submit_run(who(n), run(1, 10_000 + n as u64, true), T0 + 1).unwrap();
        assert!(matches!(
            submitted,
            labyrinth_tournament::Response::RunSubmitted { rank, .. } if rank == n as u32 + 1
        ));
    }
    assert!(contract.state.is_well_formed());
    let slow = contract.submit_run(who(500), run(1, 90_000, true), T0 + 2).unwrap();
    assert!(matches!(slow, labyrinth_tournament::Response::RunSubmitted { rank: 0, new_best: true, .. }));
    assert!(contract.state.is_well_formed());
    assert_eq!(contract.state.leaderboards[0].len(), 100);
    assert_eq!(contract.state.tournaments[0].participant_count, 101);
    assert_eq!(contract.state.tournament_players.len(), 101);
    let unfinished = contract.submit_run(who(501), run(1, 1, false), T0 + 3).unwrap();
    assert!(matches!(unfinished, labyrinth_tournament::Response::RunSubmitted { rank: 0, new_best: false, .. }));
    assert!(contract.state.is_well_formed());
    let faster = contract.submit_run(who(500), run(1, 5, true), T0 + 4).unwrap();
    assert!(matches!(faster, labyrinth_tournament::Response::RunSubmitted { rank: 1, new_best: true, .. }));
    assert!(contract.state.is_well_formed());
    assert_eq!(contract.state.leaderboards[0].len(), 100);
    assert_eq!(contract.state.leaderboards[0][0].total_runs, 2);
    assert_eq!(contract.state.leaderboards[0][99].best_time_ms, 10_098);
    let pushed_out = contract.submit_run(who(99), run(1, 10_099, true), T0 + 5).unwrap();
    assert!(matches!(pushed_out, labyrinth_tournament::Response::RunSubmitted { rank: 0, new_best: false, .. }));
    assert!(contract.state.is_well_formed());
    let back = contract.submit_run(who(99), run(1, 6, true), T0 + 6).unwrap();
    assert!(matches!(back, labyrinth_tournament::Response::RunSubmitted { rank: 2, new_best: true, .. }));
    assert!(contract.state.is_well_formed());
    assert_eq!(contract.state.leaderboards[0][1].total_runs, 3);
    assert_eq!(contract.state.tournaments[0].total_runs, 105);
    assert_eq!(contract.state.recent_runs.len(), 100);
    assert_eq!(contract.state.recent_runs[0], 105);
    let ended = contract.end_tournament(1, T0 + 15 * DAY).unwrap();
    assert!(matches!(ended, labyrinth_tournament::Response::TournamentEnded { id: 1, winner_count: 5 }));
    assert!(contract.state.is_well_formed());
}

#[test]
fn a_long_mixed_history_stays_well_formed() {
    let mut seed: u64 = 0x2545_F491_4F6C_DD1D;
    let mut next = move |bound: u64| {
        seed ^= seed << 13;
        seed ^= seed >> 7;
        seed ^= seed << 17;
        seed % bound
    };
    let mut contract = LabyrinthTournamentContract::load(LabyrinthState::new());
    let mut now = T0;
    let mut runs_before = 0usize;
    for step in 0..400u64 {
        now += next(DAY / 8);
        let who = match next(4) {
            0 => AccountOwner::Reserved(next(3) as u8),
            1 => AccountOwner::Address32([next(3) as u8; 32]),
            _ => AccountOwner::Address20(wallet(next(6) as u8)),
        };
        let operation = match next(10) {
            0 => Operation::BootstrapTournament,
            1 => Operation::CreateTournament {
                title: format!("t{}", step),
                description: String::new(),
                maze_seed: format!("seed{}", step),
                difficulty: [Difficulty::Easy, Difficulty::Medium, Difficulty::Hard, Difficulty::Nightmare]
                    [next(4) as usize],
                duration_days: next(4),
                xp_reward_pool: next(100_000),
            },
            2 => Operation::RegisterPlayer {
                wallet_address: wallet(next(6) as u8),
                username: format!("name{}", next(5)),
            },
            3 => Operation::EndTournament { tournament_id: next(8) },
            4 => Operation::ClaimReward { tournament_id: next(8) },
            _ => Operation::SubmitRun {
                tournament_id: next(8),
                time_ms: next(200_000),
                score: next(1_000),
                coins: next(50) as u32,
                deaths: next(8) as u32,
                completed: next(3) != 0,
            },
        };
        let signer = if next(20) == 0 { None } else { Some(who) };
        let response = contract.try_operation(signer, operation, now);
        assert!(response.is_some());
        assert!(contract.state.is_well_formed(), "after step {}", step);
        assert!(contract.state.runs.len() >= runs_before);
        runs_before = contract.state.runs.len();
    }
    assert!(contract.state.runs.len() > 10);
    assert!(contract.state.tournaments.len() > 5);
    assert!(contract.state.players.len() > 3);
    let service = LabyrinthTournamentService::restore(contract.store()).unwrap();
    let listed = service.tournaments(None);
    assert_eq!(listed.len(), service.state.tournaments.len());
    assert!(listed.windows(2).all(|w| w[0].start_time >= w[1].start_time));
    for id in 1..=service.state.tournaments.len() as u64 {
        let board = service.leaderboard(id, None);
        assert!(board.windows(2).all(|w| w[0].best_time_ms <= w[1].best_time_ms));
        for (i, line) in board.iter().enumerate() {
            assert_eq!(line.rank as usize, i + 1);
            assert_eq!(service.rank_of_wallet(id, &line.wallet_address), Some(line.rank));
        }
    }
}
