use labyrinth_tournament::leaderboard::{find_entry, sort_by_time, update_leaderboard, LEADERBOARD_CAPACITY};
use labyrinth_tournament::{LeaderboardEntry, TournamentPlayer};

fn wallet(n: u32) -> [u8; 20] {
    let mut bytes = [0u8; 20];
    bytes[..4].copy_from_slice(&n.to_be_bytes());
    bytes
}

fn entry(n: u32, time: u64) -> LeaderboardEntry {
    LeaderboardEntry {
        rank: 77,
        wallet_address: wallet(n),
        username: format!("line{}", n),
        best_time_ms: time,
        best_score: 1,
        total_runs: 1,
        total_xp: 10,
    }
}

fn snapshot(n: u32, time: u64, score: u64, runs: u32, xp: u64) -> TournamentPlayer {
    TournamentPlayer {
        wallet_address: wallet(n),
        username: format!("snap{}", n),
        best_time_ms: time,
        best_score: score,
        total_runs: runs,
        total_xp_earned: xp,
        last_run_at: 5,
        joined_at: 1,
    }
}

fn order(board: &Vec<LeaderboardEntry>) -> Vec<(u32, u64, u32)> {
    board
        .iter()
        .map(|e| {
            let w = e.wallet_address;
            (u32::from_be_bytes([w[0], w[1], w[2], w[3]]), e.best_time_ms, e.rank)
        })
        .collect()
}

#[test]
fn sort_is_stable() {
    let mut board = vec![entry(1, 50), entry(2, 30), entry(3, 50), entry(4, 10), entry(5, 30), entry(6, 50)];
    sort_by_time(&mut board);
    let ids: Vec<u32> = order(&board).iter().map(|x| x.0).collect();
    assert_eq!(ids, vec![4, 2, 5, 1, 3, 6]);
    let mut empty: Vec<LeaderboardEntry> = Vec::new();
    sort_by_time(&mut empty);
    assert!(empty.is_empty());
}

#[test]
fn first_entry_gets_rank_one() {
    let mut board = Vec::new();
    let rank = update_leaderboard(&mut board, &snapshot(1, 500, 9, 1, 100));
    assert_eq!(rank, 1);
    assert_eq!(order(&board), vec![(1, 500, 1)]);
    assert_eq!(board[0].username, "snap1");
    assert_eq!(board[0].best_score, 9);
    assert_eq!(board[0].total_runs, 1);
    assert_eq!(board[0].total_xp, 100);
}

#[test]
fn update_moves_an_improved_entry_up() {
    let mut board = Vec::new();
    update_leaderboard(&mut board, &snapshot(1, 100, 1, 1, 10));
    update_leaderboard(&mut board, &snapshot(2, 200, 1, 1, 10));
    update_leaderboard(&mut board, &snapshot(3, 300, 1, 1, 10));
    let rank = update_leaderboard(&mut board, &snapshot(3, 150, 8, 2, 30));
    assert_eq!(rank, 2);
    assert_eq!(order(&board), vec![(1, 100, 1), (3, 150, 2), (2, 200, 3)]);
    assert_eq!(board[1].best_score, 8);
    assert_eq!(board[1].total_runs, 2);
    assert_eq!(board[1].total_xp, 30);
    assert_eq!(board[1].username, "snap3");
}

#[test]
fn a_stale_snapshot_does_not_raise_the_time() {
    let mut board = Vec::new();
    update_leaderboard(&mut board, &snapshot(1, 100, 50, 3, 10));
    update_leaderboard(&mut board, &snapshot(2, 200, 1, 1, 10));
    let rank = update_leaderboard(&mut board, &snapshot(1, 900, 7, 4, 99));
    assert_eq!(rank, 1);
    assert_eq!(order(&board), vec![(1, 100, 1), (2, 200, 2)]);
    assert_eq!(board[0].best_score, 7);
    assert_eq!(board[0].total_runs, 4);
    assert_eq!(board[0].total_xp, 99);
}

#[test]
fn equal_times_rank_by_arrival() {
    let mut board = Vec::new();
    for n in 1..=3 {
        update_leaderboard(&mut board, &snapshot(n, 100, 1, 1, 10));
    }
    let rank = update_leaderboard(&mut board, &snapshot(4, 100, 1, 1, 10));
    assert_eq!(rank, 4);
    let rank = update_leaderboard(&mut board, &snapshot(1, 100, 2, 2, 20));
    assert_eq!(rank, 1);
    let rank = update_leaderboard(&mut board, &snapshot(5, 99, 1, 1, 10));
    assert_eq!(rank, 1);
    assert_eq!(order(&board), vec![(5, 99, 1), (1, 100, 2), (2, 100, 3), (3, 100, 4), (4, 100, 5)]);
}

#[test]
fn the_board_is_cut_to_its_capacity() {
    assert_eq!(LEADERBOARD_CAPACITY, 100);
    let mut board = Vec::new();
    for n in 0..100u32 {
        let rank = update_leaderboard(&mut board, &snapshot(n, 1_000 + n as u64, 1, 1, 10));
        assert_eq!(rank, n + 1);
    }
    assert_eq!(board.len(), 100);
    let slow = update_leaderboard(&mut board, &snapshot(500, 5_000, 1, 1, 10));
    assert_eq!(slow, 0);
    assert_eq!(board.len(), 100);
    assert_eq!(find_entry(&board, &wallet(500)), None);
    let tie_with_last = update_leaderboard(&mut board, &snapshot(501, 1_099, 1, 1, 10));
    assert_eq!(tie_with_last, 0);
    assert_eq!(find_entry(&board, &wallet(99)), Some(99));
    let fast = update_leaderboard(&mut board, &snapshot(502, 1, 1, 1, 10));
    assert_eq!(fast, 1);
    assert_eq!(board.len(), 100);
    assert_eq!(find_entry(&board, &wallet(99)), None);
    assert_eq!(find_entry(&board, &wallet(98)), Some(99));
    assert_eq!(board[99].rank, 100);
    let ranks: Vec<u32> = board.iter().map(|e| e.rank).collect();
    assert_eq!(ranks, (1..=100).collect::<Vec<u32>>());
    assert!(board.windows(2).all(|w| w[0].best_time_ms <= w[1].best_time_ms));
    let back = update_leaderboard(&mut board, &snapshot(99, 2, 1, 2, 20));
    assert_eq!(back, 2);
    assert_eq!(board[1].username, "snap99");
}

#[test]
fn an_unordered_board_is_put_in_order() {
    let mut board = vec![entry(1, 300), entry(2, 100), entry(3, 200)];
    let rank = update_leaderboard(&mut board, &snapshot(2, 250, 4, 2, 20));
    assert_eq!(rank, 1);
    assert_eq!(order(&board), vec![(2, 100, 1), (3, 200, 2), (1, 300, 3)]);
    assert_eq!(board[0].username, "line2");
}
