//! An executable check of everything that holds of the store, for a store
//! that comes from outside: one kept on disk, or put together by hand.

use vstd::prelude::*;
use crate::keys::same_wallet;
use crate::leaderboard::{
    board_wf, find_entry, lists_wallet, LEADERBOARD_CAPACITY,
};
use crate::state::{
    boards_wf, capped, counts_wf, distinct_bindings, distinct_participants, distinct_players, line_shows,
    participant_of,
    find_binding, find_participant, find_player, find_reward,
    distinct_usernames, find_username, has_participant, has_player, leads_to,
    lemma_leads_to, names_player, names_wf,
    participants_in, participants_wf, players_wf, recent_wf, reward_is, rewards_wf, row_is, runs_in,
    runs_wf, tournaments_wf, xp_from_rewards, xp_from_runs, LabyrinthState, SignerBinding,
    TournamentPlayerRow, UsernameEntry, RECENT_RUNS_CAPACITY,
};
use crate::types::{GameRun, LeaderboardEntry, Player, Tournament, TournamentReward, TournamentStatus};
use crate::xp::MAX_XP;

verus! {

/// Whether the tournaments have dense ids, the counter holds the next one, and
/// each ends after it starts.
fn tournaments_ok(tournaments: &Vec<Tournament>, next_tournament_id: u64) -> (ok: bool)
    ensures
        ok == tournaments_wf(tournaments@, next_tournament_id),
{
    let n: usize = tournaments.len();
    if n as u64 == u64::MAX || next_tournament_id != n as u64 + 1 {
        return false;
    }
    let mut i: usize = 0;
    while i < n
        invariant
            i <= n,
            n == tournaments@.len(),
            n < u64::MAX,
            forall|k: int|
                0 <= k < i ==> (#[trigger] tournaments@[k]).id == k + 1 && tournaments@[k].start_time
                    < tournaments@[k].end_time,
        decreases n - i,
    {
        if tournaments[i].id != i as u64 + 1 || tournaments[i].start_time >= tournaments[i].end_time {
            return false;
        }
        i += 1;
    }
    true
}

/// Whether the runs have dense ids, the counter holds the next one, and each
/// run names a tournament and a player that exist and earned no more than the
/// formula allows.
fn runs_ok(
    runs: &Vec<GameRun>,
    next_run_id: u64,
    tournaments: usize,
    players: &Vec<Player>,
) -> (ok: bool)
    ensures
        ok == runs_wf(runs@, next_run_id, tournaments as nat, players@),
{
    let n: usize = runs.len();
    if n as u64 == u64::MAX || next_run_id != n as u64 + 1 {
        return false;
    }
    let mut i: usize = 0;
    while i < n
        invariant
            i <= n,
            n == runs@.len(),
            n < u64::MAX,
            forall|k: int|
                0 <= k < i ==> {
                    &&& (#[trigger] runs@[k]).id == k + 1
                    &&& 1 <= runs@[k].tournament_id <= tournaments
                    &&& has_player(players@, runs@[k].wallet_address)
                    &&& runs@[k].xp_earned <= MAX_XP
                },
        decreases n - i,
    {
        if runs[i].id != i as u64 + 1 || runs[i].tournament_id < 1 || runs[i].tournament_id
            > tournaments as u64 || runs[i].xp_earned > MAX_XP {
            return false;
        }
        if find_player(players, &runs[i].wallet_address).is_none() {
            return false;
        }
        i += 1;
    }
    true
}

/// Whether each participant row names a tournament and a player that exist,
/// no participant has two rows in one tournament, and no row holds more
/// experience than its runs can have earned.
fn participants_ok(
    rows: &Vec<TournamentPlayerRow>,
    tournaments: usize,
    players: &Vec<Player>,
) -> (ok: bool)
    ensures
        ok == participants_wf(rows@, tournaments as nat, players@),
{
    let n: usize = rows.len();
    let mut i: usize = 0;
    while i < n
        invariant
            i <= n,
            n == rows@.len(),
            forall|k: int|
                0 <= k < i ==> {
                    &&& 1 <= (#[trigger] rows@[k]).tournament_id <= tournaments
                    &&& has_player(players@, rows@[k].player.wallet_address)
                    &&& rows@[k].player.total_xp_earned <= MAX_XP * rows@[k].player.total_runs
                },
            forall|a: int, b: int|
                0 <= a < b < i ==> !row_is(
                    #[trigger] rows@[a],
                    (#[trigger] rows@[b]).tournament_id,
                    rows@[b].player.wallet_address,
                ),
        decreases n - i,
    {
        if rows[i].tournament_id < 1 || rows[i].tournament_id > tournaments as u64 {
            return false;
        }
        if rows[i].player.total_xp_earned > MAX_XP * rows[i].player.total_runs as u64 {
            return false;
        }
        if find_player(players, &rows[i].player.wallet_address).is_none() {
            return false;
        }
        match find_participant(rows, rows[i].tournament_id, &rows[i].player.wallet_address) {
            Some(first) => {
                if first != i {
                    assert(row_is(
                        rows@[first as int],
                        rows@[i as int].tournament_id,
                        rows@[i as int].player.wallet_address,
                    ));
                    return false;
                }
            },
            None => {
                assert(row_is(
                    rows@[i as int],
                    rows@[i as int].tournament_id,
                    rows@[i as int].player.wallet_address,
                ));
                return false;
            },
        }
        i += 1;
    }
    true
}

/// The number of participants of a tournament.
fn count_participants(rows: &Vec<TournamentPlayerRow>, tournament_id: u64) -> (count: usize)
    ensures
        count == participants_in(rows@, tournament_id),
{
    let n: usize = rows.len();
    let mut count: usize = 0;
    let mut i: usize = 0;
    proof {
        assert(rows@.take(0) =~= Seq::<TournamentPlayerRow>::empty());
    }
    while i < n
        invariant
            i <= n,
            n == rows@.len(),
            count <= i,
            count == participants_in(rows@.take(i as int), tournament_id),
        decreases n - i,
    {
        proof {
            let next = rows@.take(i + 1);
            assert(next.drop_last() =~= rows@.take(i as int));
            assert(next.last() == rows@[i as int]);
        }
        if rows[i].tournament_id == tournament_id {
            count += 1;
        }
        i += 1;
    }
    proof {
        assert(rows@.take(n as int) =~= rows@);
    }
    count
}

/// The number of runs submitted to a tournament.
fn count_runs(runs: &Vec<GameRun>, tournament_id: u64) -> (count: usize)
    ensures
        count == runs_in(runs@, tournament_id),
{
    let n: usize = runs.len();
    let mut count: usize = 0;
    let mut i: usize = 0;
    proof {
        assert(runs@.take(0) =~= Seq::<GameRun>::empty());
    }
    while i < n
        invariant
            i <= n,
            n == runs@.len(),
            count <= i,
            count == runs_in(runs@.take(i as int), tournament_id),
        decreases n - i,
    {
        proof {
            let next = runs@.take(i + 1);
            assert(next.drop_last() =~= runs@.take(i as int));
            assert(next.last() == runs@[i as int]);
        }
        if runs[i].tournament_id == tournament_id {
            count += 1;
        }
        i += 1;
    }
    proof {
        assert(runs@.take(n as int) =~= runs@);
    }
    count
}

/// Whether each tournament counts its participants and its runs.
fn counts_ok(
    tournaments: &Vec<Tournament>,
    rows: &Vec<TournamentPlayerRow>,
    runs: &Vec<GameRun>,
) -> (ok: bool)
    requires
        tournaments@.len() < u64::MAX,
    ensures
        ok == counts_wf(tournaments@, rows@, runs@),
{
    let n: usize = tournaments.len();
    let mut i: usize = 0;
    while i < n
        invariant
            i <= n,
            n == tournaments@.len(),
            n < u64::MAX,
            forall|k: int|
                0 <= k < i ==> {
                    &&& (#[trigger] tournaments@[k]).participant_count == participants_in(
                        rows@,
                        (k + 1) as u64,
                    )
                    &&& tournaments@[k].total_runs == runs_in(runs@, (k + 1) as u64)
                },
        decreases n - i,
    {
        let id: u64 = i as u64 + 1;
        let participants = count_participants(rows, id);
        let submitted = count_runs(runs, id);
        if tournaments[i].participant_count as u64 != participants as u64 || tournaments[i].total_runs
            != submitted as u64 {
            return false;
        }
        i += 1;
    }
    true
}

/// Whether a ranking is within the capacity, in ascending order of best time,
/// ranked `1..=n`, and lists no wallet twice.
fn board_ok(board: &Vec<LeaderboardEntry>) -> (ok: bool)
    ensures
        ok == board_wf(board@),
{
    let n: usize = board.len();
    if n > LEADERBOARD_CAPACITY {
        return false;
    }
    let mut i: usize = 0;
    while i < n
        invariant
            i <= n,
            n == board@.len(),
            n <= LEADERBOARD_CAPACITY,
            forall|a: int, b: int| 0 <= a < b < i ==> board@[a].best_time_ms <= board@[b].best_time_ms,
            forall|k: int| 0 <= k < i ==> (#[trigger] board@[k]).rank == k + 1,
            forall|a: int, b: int|
                0 <= a < b < i ==> (#[trigger] board@[a]).wallet_address != (
                #[trigger] board@[b]).wallet_address,
        decreases n - i,
    {
        if board[i].rank != (i + 1) as u32 {
            return false;
        }
        if i > 0 && board[i - 1].best_time_ms > board[i].best_time_ms {
            return false;
        }
        match find_entry(board, &board[i].wallet_address) {
            Some(first) => {
                if first != i {
                    assert(board@[first as int].wallet_address == board@[i as int].wallet_address);
                    return false;
                }
            },
            None => {
                assert(board@[i as int].wallet_address == board@[i as int].wallet_address);
                return false;
            },
        }
        proof {
            assert forall|a: int, b: int| 0 <= a < b < i + 1 implies board@[a].best_time_ms
                <= board@[b].best_time_ms by {
                if b == i && a < i - 1 {
                    assert(board@[a].best_time_ms <= board@[i - 1].best_time_ms);
                }
            }
        }
        i += 1;
    }
    true
}

/// Whether the lines of the ranking of tournament `id` belong to its
/// participants and carry the values of their aggregates.
fn lines_ok(board: &Vec<LeaderboardEntry>, id: u64, rows: &Vec<TournamentPlayerRow>) -> (ok: bool)
    requires
        distinct_participants(rows@),
    ensures
        ok == forall|e: int|
            0 <= e < board@.len() ==> has_participant(rows@, id, (#[trigger] board@[e]).wallet_address)
                && line_shows(board@[e], participant_of(rows@, id, board@[e].wallet_address)),
{
    let lines: usize = board.len();
    let mut i: usize = 0;
    while i < lines
        invariant
            i <= lines,
            lines == board@.len(),
            distinct_participants(rows@),
            forall|e: int|
                0 <= e < i ==> has_participant(rows@, id, (#[trigger] board@[e]).wallet_address)
                    && line_shows(board@[e], participant_of(rows@, id, board@[e].wallet_address)),
        decreases lines - i,
    {
        match find_participant(rows, id, &board[i].wallet_address) {
            Some(at) => {
                let shown: bool = board[i].username == rows[at].player.username && board[i].best_time_ms
                    == rows[at].player.best_time_ms && board[i].best_score == rows[at].player.best_score
                    && board[i].total_runs == rows[at].player.total_runs && board[i].total_xp
                    == rows[at].player.total_xp_earned;
                if !shown {
                    return false;
                }
            },
            None => {
                return false;
            },
        }
        i += 1;
    }
    true
}

/// Whether the ranking of tournament `id` lists every participant.
fn lists_all(board: &Vec<LeaderboardEntry>, id: u64, rows: &Vec<TournamentPlayerRow>) -> (ok: bool)
    ensures
        ok == forall|i: int|
            0 <= i < rows@.len() && (#[trigger] rows@[i]).tournament_id == id ==> lists_wallet(
                board@,
                rows@[i].player.wallet_address,
            ),
{
    let n: usize = rows.len();
    let mut i: usize = 0;
    while i < n
        invariant
            i <= n,
            n == rows@.len(),
            forall|k: int|
                0 <= k < i && (#[trigger] rows@[k]).tournament_id == id ==> lists_wallet(
                    board@,
                    rows@[k].player.wallet_address,
                ),
        decreases n - i,
    {
        if rows[i].tournament_id == id && find_entry(board, &rows[i].player.wallet_address).is_none() {
            return false;
        }
        i += 1;
    }
    true
}

/// Whether there is one ranking per tournament, each well-formed, with a line
/// for each participant up to the capacity, and each line showing the
/// aggregate of its participant.
fn boards_ok(
    boards: &Vec<Vec<LeaderboardEntry>>,
    tournaments: usize,
    rows: &Vec<TournamentPlayerRow>,
) -> (ok: bool)
    requires
        tournaments < u64::MAX,
        distinct_participants(rows@),
    ensures
        ok == boards_wf(boards@, tournaments as nat, rows@),
{
    let n: usize = boards.len();
    if n != tournaments {
        return false;
    }
    let mut k: usize = 0;
    while k < n
        invariant
            k <= n,
            n == boards@.len(),
            n < u64::MAX,
            distinct_participants(rows@),
            forall|b: int| 0 <= b < k ==> board_wf((#[trigger] boards@[b])@),
            forall|b: int, e: int|
                0 <= b < k && 0 <= e < boards@[b]@.len() ==> has_participant(
                    rows@,
                    (b + 1) as u64,
                    (#[trigger] boards@[b]@[e]).wallet_address,
                ) && line_shows(
                    boards@[b]@[e],
                    participant_of(rows@, (b + 1) as u64, boards@[b]@[e].wallet_address),
                ),
            forall|b: int|
                0 <= b < k ==> (#[trigger] boards@[b])@.len() == capped(
                    participants_in(rows@, (b + 1) as u64),
                ),
            forall|b: int, i: int|
                0 <= b < k && 0 <= i < rows@.len() && boards@[b]@.len() < LEADERBOARD_CAPACITY && (
                #[trigger] rows@[i]).tournament_id == b + 1 ==> lists_wallet(
                    (#[trigger] boards@[b])@,
                    rows@[i].player.wallet_address,
                ),
        decreases n - k,
    {
        let id: u64 = k as u64 + 1;
        if !board_ok(&boards[k]) {
            return false;
        }
        if !lines_ok(&boards[k], id, rows) {
            proof {
                if boards_wf(boards@, tournaments as nat, rows@) {
                    assert forall|e: int| 0 <= e < boards@[k as int]@.len() implies has_participant(
                        rows@,
                        id,
                        (#[trigger] boards@[k as int]@[e]).wallet_address,
                    ) && line_shows(
                        boards@[k as int]@[e],
                        participant_of(rows@, id, boards@[k as int]@[e].wallet_address),
                    ) by {
                        assert(lists_wallet(boards@[k as int]@, boards@[k as int]@[e].wallet_address));
                    }
                }
            }
            return false;
        }
        let participants: usize = count_participants(rows, id);
        let expected: usize = if participants < LEADERBOARD_CAPACITY {
            participants
        } else {
            LEADERBOARD_CAPACITY
        };
        if boards[k].len() != expected {
            return false;
        }
        if boards[k].len() < LEADERBOARD_CAPACITY && !lists_all(&boards[k], id, rows) {
            return false;
        }
        k += 1;
    }
    proof {
        assert forall|b: int, wallet: [u8; 20]|
            0 <= b < boards@.len() && #[trigger] lists_wallet(boards@[b]@, wallet) implies has_participant(
            rows@,
            (b + 1) as u64,
            wallet,
        ) by {
            let e = choose|e: int| 0 <= e < boards@[b]@.len() && (#[trigger] boards@[b]@[e]).wallet_address == wallet;
            assert(has_participant(rows@, (b + 1) as u64, boards@[b]@[e].wallet_address));
        }
    }
    true
}

/// The runs of a prefix earned no more than all the runs.
proof fn lemma_xp_from_runs_prefix(runs: Seq<GameRun>, wallet: [u8; 20], k: int)
    requires
        0 <= k <= runs.len(),
    ensures
        xp_from_runs(runs.take(k), wallet) <= xp_from_runs(runs, wallet),
    decreases runs.len(),
{
    if k == runs.len() {
        assert(runs.take(k) =~= runs);
    } else {
        assert(runs.drop_last().take(k) =~= runs.take(k));
        lemma_xp_from_runs_prefix(runs.drop_last(), wallet, k);
    }
}

/// The prizes of a prefix awarded no more than all the prizes.
proof fn lemma_xp_from_rewards_prefix(rewards: Seq<TournamentReward>, wallet: [u8; 20], k: int)
    requires
        0 <= k <= rewards.len(),
    ensures
        xp_from_rewards(rewards.take(k), wallet) <= xp_from_rewards(rewards, wallet),
    decreases rewards.len(),
{
    if k == rewards.len() {
        assert(rewards.take(k) =~= rewards);
    } else {
        assert(rewards.drop_last().take(k) =~= rewards.take(k));
        lemma_xp_from_rewards_prefix(rewards.drop_last(), wallet, k);
    }
}

/// What the wallet's runs earned, unless it is more than a `u64` holds.
fn sum_run_xp(runs: &Vec<GameRun>, wallet: &[u8; 20]) -> (sum: Option<u64>)
    ensures
        sum is Some <==> xp_from_runs(runs@, *wallet) <= u64::MAX,
        sum is Some ==> sum.unwrap() == xp_from_runs(runs@, *wallet),
{
    let n: usize = runs.len();
    let mut sum: u64 = 0;
    let mut i: usize = 0;
    proof {
        assert(runs@.take(0) =~= Seq::<GameRun>::empty());
    }
    while i < n
        invariant
            i <= n,
            n == runs@.len(),
            sum == xp_from_runs(runs@.take(i as int), *wallet),
        decreases n - i,
    {
        proof {
            let next = runs@.take(i + 1);
            assert(next.drop_last() =~= runs@.take(i as int));
            assert(next.last() == runs@[i as int]);
            lemma_xp_from_runs_prefix(runs@, *wallet, i + 1);
        }
        if same_wallet(&runs[i].wallet_address, wallet) {
            if runs[i].xp_earned > u64::MAX - sum {
                return None;
            }
            sum = sum + runs[i].xp_earned;
        }
        i += 1;
    }
    proof {
        assert(runs@.take(n as int) =~= runs@);
    }
    Some(sum)
}

/// What the wallet's prizes awarded, unless it is more than a `u64` holds.
fn sum_reward_xp(rewards: &Vec<TournamentReward>, wallet: &[u8; 20]) -> (sum: Option<u64>)
    ensures
        sum is Some <==> xp_from_rewards(rewards@, *wallet) <= u64::MAX,
        sum is Some ==> sum.unwrap() == xp_from_rewards(rewards@, *wallet),
{
    let n: usize = rewards.len();
    let mut sum: u64 = 0;
    let mut i: usize = 0;
    proof {
        assert(rewards@.take(0) =~= Seq::<TournamentReward>::empty());
    }
    while i < n
        invariant
            i <= n,
            n == rewards@.len(),
            sum == xp_from_rewards(rewards@.take(i as int), *wallet),
        decreases n - i,
    {
        proof {
            let next = rewards@.take(i + 1);
            assert(next.drop_last() =~= rewards@.take(i as int));
            assert(next.last() == rewards@[i as int]);
            lemma_xp_from_rewards_prefix(rewards@, *wallet, i + 1);
        }
        if same_wallet(&rewards[i].wallet_address, wallet) {
            if rewards[i].xp_amount > u64::MAX - sum {
                return None;
            }
            sum = sum + rewards[i].xp_amount;
        }
        i += 1;
    }
    proof {
        assert(rewards@.take(n as int) =~= rewards@);
    }
    Some(sum)
}

/// Whether no wallet has two profiles, each player's experience is what its
/// runs earned and its prizes awarded, and none has more runs than there are.
fn players_ok(
    players: &Vec<Player>,
    runs: &Vec<GameRun>,
    rewards: &Vec<TournamentReward>,
) -> (ok: bool)
    ensures
        ok == players_wf(players@, runs@, rewards@),
{
    let n: usize = players.len();
    let mut i: usize = 0;
    while i < n
        invariant
            i <= n,
            n == players@.len(),
            forall|k: int|
                0 <= k < i ==> {
                    &&& (#[trigger] players@[k]).total_xp == xp_from_runs(runs@, players@[k].wallet_address)
                        + xp_from_rewards(rewards@, players@[k].wallet_address)
                    &&& players@[k].total_runs <= runs@.len()
                },
            forall|a: int, b: int|
                0 <= a < b < i ==> (#[trigger] players@[a]).wallet_address != (
                #[trigger] players@[b]).wallet_address,
        decreases n - i,
    {
        match find_player(players, &players[i].wallet_address) {
            Some(first) => {
                if first != i {
                    assert(players@[first as int].wallet_address == players@[i as int].wallet_address);
                    return false;
                }
            },
            None => {
                assert(players@[i as int].wallet_address == players@[i as int].wallet_address);
                return false;
            },
        }
        if players[i].total_runs > runs.len() as u64 {
            return false;
        }
        let earned = sum_run_xp(runs, &players[i].wallet_address);
        let awarded = sum_reward_xp(rewards, &players[i].wallet_address);
        match (earned, awarded) {
            (Some(earned), Some(awarded)) => {
                if players[i].total_xp as u128 != earned as u128 + awarded as u128 {
                    return false;
                }
            },
            _ => {
                return false;
            },
        }
        i += 1;
    }
    true
}

/// Whether prizes exist only in ended tournaments, one per wallet and
/// tournament, each for a player that exists.
fn rewards_ok(
    rewards: &Vec<TournamentReward>,
    tournaments: &Vec<Tournament>,
    players: &Vec<Player>,
) -> (ok: bool)
    ensures
        ok == rewards_wf(rewards@, tournaments@, players@),
{
    let n: usize = rewards.len();
    let mut i: usize = 0;
    while i < n
        invariant
            i <= n,
            n == rewards@.len(),
            forall|k: int|
                0 <= k < i ==> {
                    &&& 1 <= (#[trigger] rewards@[k]).tournament_id <= tournaments@.len()
                    &&& tournaments@[rewards@[k].tournament_id - 1].status == TournamentStatus::Ended
                    &&& has_player(players@, rewards@[k].wallet_address)
                },
            forall|a: int, b: int|
                0 <= a < b < i ==> !reward_is(
                    #[trigger] rewards@[a],
                    (#[trigger] rewards@[b]).tournament_id,
                    rewards@[b].wallet_address,
                ),
        decreases n - i,
    {
        let id: u64 = rewards[i].tournament_id;
        if id < 1 || id > tournaments.len() as u64 {
            return false;
        }
        let slot: usize = (id - 1) as usize;
        match tournaments[slot].status {
            TournamentStatus::Active => {
                return false;
            },
            TournamentStatus::Ended => {},
        }
        if find_player(players, &rewards[i].wallet_address).is_none() {
            return false;
        }
        match find_reward(rewards, id, &rewards[i].wallet_address) {
            Some(first) => {
                if first != i {
                    assert(reward_is(rewards@[first as int], id, rewards@[i as int].wallet_address));
                    return false;
                }
            },
            None => {
                assert(reward_is(rewards@[i as int], id, rewards@[i as int].wallet_address));
                return false;
            },
        }
        i += 1;
    }
    true
}

/// Whether no two profiles bear the same username, no username stands twice in
/// the index, each indexed username leads to a player that bears it, and the
/// index leads every player's username to that player's wallet.
fn names_ok(index: &Vec<UsernameEntry>, players: &Vec<Player>) -> (ok: bool)
    requires
        distinct_players(players@),
    ensures
        ok == names_wf(index@, players@),
{
    let n: usize = index.len();
    let mut i: usize = 0;
    while i < n
        invariant
            i <= n,
            n == index@.len(),
            distinct_players(players@),
            forall|k: int|
                0 <= k < i ==> names_player(players@, (#[trigger] index@[k]).wallet_address, index@[k].username@),
            forall|a: int, b: int|
                0 <= a < b < i ==> (#[trigger] index@[a]).username@ != (#[trigger] index@[b]).username@,
        decreases n - i,
    {
        match find_username(index, &index[i].username) {
            Some(first) => {
                if first != i {
                    assert(index@[first as int].username@ == index@[i as int].username@);
                    return false;
                }
            },
            None => {
                assert(index@[i as int].username@ == index@[i as int].username@);
                return false;
            },
        }
        match find_player(players, &index[i].wallet_address) {
            Some(j) => {
                let named: bool = players[j].username == index[i].username;
                proof {
                    let wallet = index@[i as int].wallet_address;
                    let name = index@[i as int].username@;
                    if named {
                        assert(players@[j as int].wallet_address == wallet && players@[j as int].username@
                            == name);
                    } else if names_player(players@, wallet, name) {
                        let other = choose|other: int|
                            0 <= other < players@.len() && (#[trigger] players@[other]).wallet_address
                                == wallet && players@[other].username@ == name;
                        if other < j {
                            assert(players@[other].wallet_address != players@[j as int].wallet_address);
                        }
                        if j < other {
                            assert(players@[j as int].wallet_address != players@[other].wallet_address);
                        }
                    }
                }
                if !named {
                    return false;
                }
            },
            None => {
                return false;
            },
        }
        i += 1;
    }
    let m: usize = players.len();
    let mut j: usize = 0;
    while j < m
        invariant
            j <= m,
            m == players@.len(),
            distinct_usernames(index@),
            forall|k: int|
                0 <= k < j ==> leads_to(
                    index@,
                    (#[trigger] players@[k]).username@,
                    players@[k].wallet_address,
                ),
        decreases m - j,
    {
        match find_username(index, &players[j].username) {
            Some(k) => {
                if !same_wallet(&index[k].wallet_address, &players[j].wallet_address) {
                    proof {
                        let name = players@[j as int].username@;
                        let wallet = players@[j as int].wallet_address;
                        if leads_to(index@, name, wallet) {
                            lemma_leads_to(index@, name, wallet);
                        }
                    }
                    return false;
                }
                assert(index@[k as int].username@ == players@[j as int].username@);
            },
            None => {
                proof {
                    let name = players@[j as int].username@;
                    let wallet = players@[j as int].wallet_address;
                    if leads_to(index@, name, wallet) {
                        lemma_leads_to(index@, name, wallet);
                    }
                }
                return false;
            },
        }
        j += 1;
    }
    proof {
        assert forall|a: int, b: int| 0 <= a < b < players@.len() implies (#[trigger] players@[a]).username@
            != (#[trigger] players@[b]).username@ by {
            if players@[a].username@ == players@[b].username@ {
                lemma_leads_to(index@, players@[a].username@, players@[a].wallet_address);
                lemma_leads_to(index@, players@[b].username@, players@[b].wallet_address);
                assert(players@[a].wallet_address != players@[b].wallet_address);
            }
        }
    }
    true
}

/// Whether no caller identity is bound twice.
fn bindings_ok(bindings: &Vec<SignerBinding>) -> (ok: bool)
    ensures
        ok == distinct_bindings(bindings@),
{
    let n: usize = bindings.len();
    let mut i: usize = 0;
    while i < n
        invariant
            i <= n,
            n == bindings@.len(),
            forall|a: int, b: int|
                0 <= a < b < i ==> (#[trigger] bindings@[a]).signer != (#[trigger] bindings@[b]).signer,
        decreases n - i,
    {
        match find_binding(bindings, &bindings[i].signer) {
            Some(first) => {
                if first != i {
                    assert(bindings@[first as int].signer == bindings@[i as int].signer);
                    return false;
                }
            },
            None => {
                assert(bindings@[i as int].signer == bindings@[i as int].signer);
                return false;
            },
        }
        i += 1;
    }
    true
}

/// Whether the feed holds the ids of the latest runs, newest first, up to its
/// capacity.
fn recent_ok(recent: &Vec<u64>, runs: usize) -> (ok: bool)
    ensures
        ok == recent_wf(recent@, runs as nat),
{
    let expected: usize = if runs < RECENT_RUNS_CAPACITY {
        runs
    } else {
        RECENT_RUNS_CAPACITY
    };
    if recent.len() != expected {
        return false;
    }
    let mut i: usize = 0;
    while i < expected
        invariant
            i <= expected,
            expected == recent@.len(),
            expected <= runs,
            forall|k: int| 0 <= k < i ==> #[trigger] recent@[k] == runs - k,
        decreases expected - i,
    {
        if recent[i] != (runs - i) as u64 {
            return false;
        }
        i += 1;
    }
    true
}

impl LabyrinthState {
    /// Whether everything holds of this store that holds of a store the
    /// operations left.
    pub fn is_well_formed(&self) -> (ok: bool)
        ensures
            ok == self.wf(),
    {
        if !tournaments_ok(&self.tournaments, self.next_tournament_id) {
            return false;
        }
        let tournaments: usize = self.tournaments.len();
        if !runs_ok(&self.runs, self.next_run_id, tournaments, &self.players) {
            return false;
        }
        if !participants_ok(&self.tournament_players, tournaments, &self.players) {
            return false;
        }
        if !counts_ok(&self.tournaments, &self.tournament_players, &self.runs) {
            return false;
        }
        if !boards_ok(&self.leaderboards, tournaments, &self.tournament_players) {
            return false;
        }
        if !players_ok(&self.players, &self.runs, &self.rewards) {
            return false;
        }
        if !rewards_ok(&self.rewards, &self.tournaments, &self.players) {
            return false;
        }
        if !names_ok(&self.username_to_wallet, &self.players) {
            return false;
        }
        if !bindings_ok(&self.signer_to_wallet) {
            return false;
        }
        if !recent_ok(&self.recent_runs, self.runs.len()) {
            return false;
        }
        match self.active_tournament_id {
            Some(id) => 1 <= id && id <= tournaments as u64,
            None => true,
        }
    }
}

} // verus!
