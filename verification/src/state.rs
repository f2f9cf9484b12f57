//! The store: every table the state machine keeps, and what holds of them
//! after each operation.
//!
//! Tournaments, leaderboards and runs are dense: the row of id `n` stands at
//! position `n - 1`. The other tables are keyed rows in the order they were
//! first written, no key twice.

use vstd::prelude::*;
use crate::keys::{same_owner, same_wallet};
use crate::leaderboard::{board_wf, lists_wallet, LEADERBOARD_CAPACITY};
use crate::types::{
    AccountOwner, GameRun, LeaderboardEntry, Player, Tournament, TournamentPlayer, TournamentReward,
    TournamentStatus,
};
use crate::xp::MAX_XP;

verus! {

/// The most run ids the activity feed keeps.
pub const RECENT_RUNS_CAPACITY: usize = 100;

/// A caller identity bound to a wallet.
#[derive(Clone, Copy, Debug)]
pub struct SignerBinding {
    pub signer: AccountOwner,
    pub wallet_address: [u8; 20],
}

/// A username and the wallet it leads to.
#[derive(Debug)]
pub struct UsernameEntry {
    pub username: String,
    pub wallet_address: [u8; 20],
}

impl Clone for UsernameEntry {
    fn clone(&self) -> (copy: Self)
        ensures
            copy == *self,
    {
        UsernameEntry { username: self.username.clone(), wallet_address: self.wallet_address }
    }
}

/// A player's aggregate in the tournament `tournament_id`.
#[derive(Debug)]
pub struct TournamentPlayerRow {
    pub tournament_id: u64,
    pub player: TournamentPlayer,
}

impl Clone for TournamentPlayerRow {
    fn clone(&self) -> (copy: Self)
        ensures
            copy == *self,
    {
        TournamentPlayerRow { tournament_id: self.tournament_id, player: self.player.clone() }
    }
}

/// Everything the state machine keeps.
#[derive(Debug)]
pub struct LabyrinthState {
    /// The chain on which the tournament state is authoritative.
    pub hub_chain_id: Option<String>,
    /// The next unused tournament id.
    pub next_tournament_id: u64,
    /// The next unused run id.
    pub next_run_id: u64,
    /// Caller identities and the wallets they are bound to.
    pub signer_to_wallet: Vec<SignerBinding>,
    /// All tournaments; id `n` at position `n - 1`.
    pub tournaments: Vec<Tournament>,
    /// The tournament currently published as active.
    pub active_tournament_id: Option<u64>,
    /// Global player profiles.
    pub players: Vec<Player>,
    /// The uniqueness index of usernames.
    pub username_to_wallet: Vec<UsernameEntry>,
    /// Per-tournament aggregates of the participants.
    pub tournament_players: Vec<TournamentPlayerRow>,
    /// The ranking of each tournament; that of id `n` at position `n - 1`.
    pub leaderboards: Vec<Vec<LeaderboardEntry>>,
    /// All runs; id `n` at position `n - 1`.
    pub runs: Vec<GameRun>,
    /// The ids of the latest runs, newest first.
    pub recent_runs: Vec<u64>,
    /// The prizes of ended tournaments.
    pub rewards: Vec<TournamentReward>,
}

// ---------------------------------------------------------------------------
// Lookups
// ---------------------------------------------------------------------------

/// Whether `wallet` has a profile.
pub open spec fn has_player(players: Seq<Player>, wallet: [u8; 20]) -> bool {
    exists|i: int| 0 <= i < players.len() && (#[trigger] players[i]).wallet_address == wallet
}

/// The position of the profile of `wallet`, meaningful when it has one.
pub open spec fn player_index(players: Seq<Player>, wallet: [u8; 20]) -> int {
    choose|i: int| 0 <= i < players.len() && (#[trigger] players[i]).wallet_address == wallet
}

/// No wallet has two profiles.
pub open spec fn distinct_players(players: Seq<Player>) -> bool {
    forall|i: int, j: int|
        0 <= i < j < players.len() ==> (#[trigger] players[i]).wallet_address != (
        #[trigger] players[j]).wallet_address
}

/// Whether the row is that of `wallet` in tournament `tournament_id`.
pub open spec fn row_is(row: TournamentPlayerRow, tournament_id: u64, wallet: [u8; 20]) -> bool {
    row.tournament_id == tournament_id && row.player.wallet_address == wallet
}

/// Whether `wallet` takes part in tournament `tournament_id`.
pub open spec fn has_participant(
    rows: Seq<TournamentPlayerRow>,
    tournament_id: u64,
    wallet: [u8; 20],
) -> bool {
    exists|i: int| 0 <= i < rows.len() && row_is(#[trigger] rows[i], tournament_id, wallet)
}

/// The position of the participant's row, meaningful when there is one.
pub open spec fn participant_index(
    rows: Seq<TournamentPlayerRow>,
    tournament_id: u64,
    wallet: [u8; 20],
) -> int {
    choose|i: int| 0 <= i < rows.len() && row_is(#[trigger] rows[i], tournament_id, wallet)
}

/// No participant has two rows in one tournament.
pub open spec fn distinct_participants(rows: Seq<TournamentPlayerRow>) -> bool {
    forall|i: int, j: int|
        0 <= i < j < rows.len() ==> !row_is(
            #[trigger] rows[i],
            (#[trigger] rows[j]).tournament_id,
            rows[j].player.wallet_address,
        )
}

/// Whether the prize is that of `wallet` in tournament `tournament_id`.
pub open spec fn reward_is(reward: TournamentReward, tournament_id: u64, wallet: [u8; 20]) -> bool {
    reward.tournament_id == tournament_id && reward.wallet_address == wallet
}

/// Whether `wallet` holds a prize of tournament `tournament_id`.
pub open spec fn has_reward(
    rewards: Seq<TournamentReward>,
    tournament_id: u64,
    wallet: [u8; 20],
) -> bool {
    exists|i: int| 0 <= i < rewards.len() && reward_is(#[trigger] rewards[i], tournament_id, wallet)
}

/// The position of the prize, meaningful when there is one.
pub open spec fn reward_index(
    rewards: Seq<TournamentReward>,
    tournament_id: u64,
    wallet: [u8; 20],
) -> int {
    choose|i: int| 0 <= i < rewards.len() && reward_is(#[trigger] rewards[i], tournament_id, wallet)
}

/// No wallet holds two prizes of one tournament.
pub open spec fn distinct_rewards(rewards: Seq<TournamentReward>) -> bool {
    forall|i: int, j: int|
        0 <= i < j < rewards.len() ==> !reward_is(
            #[trigger] rewards[i],
            (#[trigger] rewards[j]).tournament_id,
            rewards[j].wallet_address,
        )
}

/// Whether the index holds `username`.
pub open spec fn has_username(index: Seq<UsernameEntry>, username: Seq<char>) -> bool {
    exists|i: int| 0 <= i < index.len() && (#[trigger] index[i]).username@ == username
}

/// The position of `username` in the index, meaningful when it is there.
pub open spec fn username_index(index: Seq<UsernameEntry>, username: Seq<char>) -> int {
    choose|i: int| 0 <= i < index.len() && (#[trigger] index[i]).username@ == username
}

/// No username stands twice in the index.
pub open spec fn distinct_usernames(index: Seq<UsernameEntry>) -> bool {
    forall|i: int, j: int|
        0 <= i < j < index.len() ==> (#[trigger] index[i]).username@ != (#[trigger] index[j]).username@
}

/// Whether `signer` is bound to a wallet.
pub open spec fn has_binding(bindings: Seq<SignerBinding>, signer: AccountOwner) -> bool {
    exists|i: int| 0 <= i < bindings.len() && (#[trigger] bindings[i]).signer == signer
}

/// The position of the binding of `signer`, meaningful when it is bound.
pub open spec fn binding_index(bindings: Seq<SignerBinding>, signer: AccountOwner) -> int {
    choose|i: int| 0 <= i < bindings.len() && (#[trigger] bindings[i]).signer == signer
}

/// No caller identity is bound twice.
pub open spec fn distinct_bindings(bindings: Seq<SignerBinding>) -> bool {
    forall|i: int, j: int|
        0 <= i < j < bindings.len() ==> (#[trigger] bindings[i]).signer != (#[trigger] bindings[j]).signer
}

// ---------------------------------------------------------------------------
// Counts and sums
// ---------------------------------------------------------------------------

/// The number of runs submitted to tournament `tournament_id`.
pub open spec fn runs_in(runs: Seq<GameRun>, tournament_id: u64) -> nat
    decreases runs.len(),
{
    if runs.len() == 0 {
        0
    } else {
        runs_in(runs.drop_last(), tournament_id) + if runs.last().tournament_id == tournament_id {
            1nat
        } else {
            0nat
        }
    }
}

/// The number of participants of tournament `tournament_id`.
pub open spec fn participants_in(rows: Seq<TournamentPlayerRow>, tournament_id: u64) -> nat
    decreases rows.len(),
{
    if rows.len() == 0 {
        0
    } else {
        participants_in(rows.drop_last(), tournament_id) + if rows.last().tournament_id
            == tournament_id {
            1nat
        } else {
            0nat
        }
    }
}

/// The experience `wallet` earned over all its runs.
pub open spec fn xp_from_runs(runs: Seq<GameRun>, wallet: [u8; 20]) -> nat
    decreases runs.len(),
{
    if runs.len() == 0 {
        0
    } else {
        xp_from_runs(runs.drop_last(), wallet) + if runs.last().wallet_address == wallet {
            runs.last().xp_earned as nat
        } else {
            0nat
        }
    }
}

/// The experience `wallet` was awarded in prizes.
pub open spec fn xp_from_rewards(rewards: Seq<TournamentReward>, wallet: [u8; 20]) -> nat
    decreases rewards.len(),
{
    if rewards.len() == 0 {
        0
    } else {
        xp_from_rewards(rewards.drop_last(), wallet) + if rewards.last().wallet_address == wallet {
            rewards.last().xp_amount as nat
        } else {
            0nat
        }
    }
}

/// One more run counts in its own tournament and in no other.
pub proof fn lemma_runs_in_push(runs: Seq<GameRun>, run: GameRun, tournament_id: u64)
    ensures
        runs_in(runs.push(run), tournament_id) == runs_in(runs, tournament_id) + if run.tournament_id
            == tournament_id {
            1nat
        } else {
            0nat
        },
{
    assert(runs.push(run).drop_last() =~= runs);
}

/// A tournament has no more runs than there are runs, and none where no run
/// names it.
pub proof fn lemma_runs_in_bounds(runs: Seq<GameRun>, tournament_id: u64)
    ensures
        runs_in(runs, tournament_id) <= runs.len(),
        (forall|i: int| 0 <= i < runs.len() ==> (#[trigger] runs[i]).tournament_id != tournament_id)
            ==> runs_in(runs, tournament_id) == 0,
    decreases runs.len(),
{
    if runs.len() > 0 {
        let init = runs.drop_last();
        lemma_runs_in_bounds(init, tournament_id);
        assert(forall|i: int| 0 <= i < init.len() ==> init[i] == runs[i]);
        assert(runs.last() == runs[runs.len() - 1]);
    }
}

/// One more participant counts in its own tournament and in no other.
pub proof fn lemma_participants_in_push(
    rows: Seq<TournamentPlayerRow>,
    row: TournamentPlayerRow,
    tournament_id: u64,
)
    ensures
        participants_in(rows.push(row), tournament_id) == participants_in(rows, tournament_id)
            + if row.tournament_id == tournament_id {
            1nat
        } else {
            0nat
        },
{
    assert(rows.push(row).drop_last() =~= rows);
}

/// Rewriting a row within its tournament changes no count.
pub proof fn lemma_participants_in_update(
    rows: Seq<TournamentPlayerRow>,
    i: int,
    row: TournamentPlayerRow,
    tournament_id: u64,
)
    requires
        0 <= i < rows.len(),
        row.tournament_id == rows[i].tournament_id,
    ensures
        participants_in(rows.update(i, row), tournament_id) == participants_in(rows, tournament_id),
    decreases rows.len(),
{
    let after = rows.update(i, row);
    if i == rows.len() - 1 {
        assert(after.drop_last() =~= rows.drop_last());
    } else {
        assert(after.drop_last() =~= rows.drop_last().update(i, row));
        lemma_participants_in_update(rows.drop_last(), i, row, tournament_id);
    }
}

/// A tournament has no more participants than there are rows, and none where
/// no row names it.
pub proof fn lemma_participants_in_bounds(rows: Seq<TournamentPlayerRow>, tournament_id: u64)
    ensures
        participants_in(rows, tournament_id) <= rows.len(),
        (forall|i: int| 0 <= i < rows.len() ==> (#[trigger] rows[i]).tournament_id != tournament_id)
            ==> participants_in(rows, tournament_id) == 0,
    decreases rows.len(),
{
    if rows.len() > 0 {
        let init = rows.drop_last();
        lemma_participants_in_bounds(init, tournament_id);
        assert(forall|i: int| 0 <= i < init.len() ==> init[i] == rows[i]);
        assert(rows.last() == rows[rows.len() - 1]);
    }
}

/// One more run adds its experience to its own wallet and to no other.
pub proof fn lemma_xp_from_runs_push(runs: Seq<GameRun>, run: GameRun, wallet: [u8; 20])
    ensures
        xp_from_runs(runs.push(run), wallet) == xp_from_runs(runs, wallet) + if run.wallet_address
            == wallet {
            run.xp_earned as nat
        } else {
            0nat
        },
{
    assert(runs.push(run).drop_last() =~= runs);
}

/// A wallet that no run names earned nothing from runs.
pub proof fn lemma_xp_from_runs_none(runs: Seq<GameRun>, wallet: [u8; 20])
    requires
        forall|i: int| 0 <= i < runs.len() ==> (#[trigger] runs[i]).wallet_address != wallet,
    ensures
        xp_from_runs(runs, wallet) == 0,
    decreases runs.len(),
{
    if runs.len() > 0 {
        let init = runs.drop_last();
        assert(forall|i: int| 0 <= i < init.len() ==> init[i] == runs[i]);
        lemma_xp_from_runs_none(init, wallet);
        assert(runs.last() == runs[runs.len() - 1]);
    }
}

/// One more prize adds its amount to its own wallet and to no other.
pub proof fn lemma_xp_from_rewards_push(
    rewards: Seq<TournamentReward>,
    reward: TournamentReward,
    wallet: [u8; 20],
)
    ensures
        xp_from_rewards(rewards.push(reward), wallet) == xp_from_rewards(rewards, wallet)
            + if reward.wallet_address == wallet {
            reward.xp_amount as nat
        } else {
            0nat
        },
{
    assert(rewards.push(reward).drop_last() =~= rewards);
}

/// Rewriting a prize without touching wallet or amount changes no sum.
pub proof fn lemma_xp_from_rewards_update(
    rewards: Seq<TournamentReward>,
    i: int,
    reward: TournamentReward,
    wallet: [u8; 20],
)
    requires
        0 <= i < rewards.len(),
        reward.wallet_address == rewards[i].wallet_address,
        reward.xp_amount == rewards[i].xp_amount,
    ensures
        xp_from_rewards(rewards.update(i, reward), wallet) == xp_from_rewards(rewards, wallet),
    decreases rewards.len(),
{
    let after = rewards.update(i, reward);
    if i == rewards.len() - 1 {
        assert(after.drop_last() =~= rewards.drop_last());
    } else {
        assert(after.drop_last() =~= rewards.drop_last().update(i, reward));
        lemma_xp_from_rewards_update(rewards.drop_last(), i, reward, wallet);
    }
}

/// A wallet that no prize names was awarded nothing.
pub proof fn lemma_xp_from_rewards_none(rewards: Seq<TournamentReward>, wallet: [u8; 20])
    requires
        forall|i: int| 0 <= i < rewards.len() ==> (#[trigger] rewards[i]).wallet_address != wallet,
    ensures
        xp_from_rewards(rewards, wallet) == 0,
    decreases rewards.len(),
{
    if rewards.len() > 0 {
        let init = rewards.drop_last();
        assert(forall|i: int| 0 <= i < init.len() ==> init[i] == rewards[i]);
        lemma_xp_from_rewards_none(init, wallet);
        assert(rewards.last() == rewards[rewards.len() - 1]);
    }
}

// ---------------------------------------------------------------------------
// What holds of the store
// ---------------------------------------------------------------------------

/// Tournament ids are dense from 1, the counter holds the next one, and each
/// tournament ends after it starts.
pub open spec fn tournaments_wf(tournaments: Seq<Tournament>, next_tournament_id: u64) -> bool {
    &&& next_tournament_id == tournaments.len() + 1
    &&& forall|i: int|
        0 <= i < tournaments.len() ==> (#[trigger] tournaments[i]).id == i + 1 && tournaments[i].start_time
            < tournaments[i].end_time
}

/// Run ids are dense from 1 and the counter holds the next one; each run names
/// a tournament and a player that exist, and earned no more than the formula
/// allows.
pub open spec fn runs_wf(
    runs: Seq<GameRun>,
    next_run_id: u64,
    tournaments: nat,
    players: Seq<Player>,
) -> bool {
    &&& next_run_id == runs.len() + 1
    &&& forall|i: int|
        0 <= i < runs.len() ==> {
            &&& (#[trigger] runs[i]).id == i + 1
            &&& 1 <= runs[i].tournament_id <= tournaments
            &&& has_player(players, runs[i].wallet_address)
            &&& runs[i].xp_earned <= MAX_XP
        }
}

/// Each participant row names a tournament and a player that exist, each
/// participant has one row per tournament, and the experience of a row is
/// within what its runs can have earned.
pub open spec fn participants_wf(
    rows: Seq<TournamentPlayerRow>,
    tournaments: nat,
    players: Seq<Player>,
) -> bool {
    &&& distinct_participants(rows)
    &&& forall|i: int|
        0 <= i < rows.len() ==> {
            &&& 1 <= (#[trigger] rows[i]).tournament_id <= tournaments
            &&& has_player(players, rows[i].player.wallet_address)
            &&& rows[i].player.total_xp_earned <= MAX_XP * rows[i].player.total_runs
        }
}

/// Each tournament counts its participants and its runs.
pub open spec fn counts_wf(
    tournaments: Seq<Tournament>,
    rows: Seq<TournamentPlayerRow>,
    runs: Seq<GameRun>,
) -> bool {
    forall|i: int|
        0 <= i < tournaments.len() ==> {
            &&& (#[trigger] tournaments[i]).participant_count == participants_in(rows, (i + 1) as u64)
            &&& tournaments[i].total_runs == runs_in(runs, (i + 1) as u64)
        }
}

/// The aggregate of `wallet` in tournament `tournament_id`, meaningful when it
/// takes part.
pub open spec fn participant_of(
    rows: Seq<TournamentPlayerRow>,
    tournament_id: u64,
    wallet: [u8; 20],
) -> TournamentPlayer {
    rows[participant_index(rows, tournament_id, wallet)].player
}

/// Whether a line of a ranking carries the values of the player's aggregate.
pub open spec fn line_shows(line: LeaderboardEntry, row: TournamentPlayer) -> bool {
    &&& line.wallet_address == row.wallet_address
    &&& line.username@ == row.username@
    &&& line.best_time_ms == row.best_time_ms
    &&& line.best_score == row.best_score
    &&& line.total_runs == row.total_runs
    &&& line.total_xp == row.total_xp_earned
}

/// How many lines the ranking of a tournament with that many participants
/// has: one each, up to the capacity.
pub open spec fn capped(participants: nat) -> nat {
    if participants < LEADERBOARD_CAPACITY {
        participants
    } else {
        LEADERBOARD_CAPACITY as nat
    }
}

/// There is one ranking per tournament, each well-formed. Each line of a
/// ranking belongs to a participant of that tournament and carries the values
/// of its aggregate. A ranking has one line for each participant up to the
/// capacity, and while it is below the capacity it lists every participant.
pub open spec fn boards_wf(
    boards: Seq<Vec<LeaderboardEntry>>,
    tournaments: nat,
    rows: Seq<TournamentPlayerRow>,
) -> bool {
    &&& boards.len() == tournaments
    &&& forall|k: int| 0 <= k < boards.len() ==> board_wf((#[trigger] boards[k])@)
    &&& forall|k: int, wallet: [u8; 20]|
        0 <= k < boards.len() && #[trigger] lists_wallet(boards[k]@, wallet) ==> has_participant(
            rows,
            (k + 1) as u64,
            wallet,
        )
    &&& forall|k: int, e: int|
        0 <= k < boards.len() && 0 <= e < boards[k]@.len() ==> line_shows(
            #[trigger] boards[k]@[e],
            participant_of(rows, (k + 1) as u64, boards[k]@[e].wallet_address),
        )
    &&& forall|k: int|
        0 <= k < boards.len() ==> (#[trigger] boards[k])@.len() == capped(
            participants_in(rows, (k + 1) as u64),
        )
    &&& forall|k: int, i: int|
        0 <= k < boards.len() && 0 <= i < rows.len() && boards[k]@.len() < LEADERBOARD_CAPACITY && (
        #[trigger] rows[i]).tournament_id == k + 1 ==> lists_wallet(
            (#[trigger] boards[k])@,
            rows[i].player.wallet_address,
        )
}

/// No wallet has two profiles; a player's experience is what its runs earned
/// and its prizes awarded, and it has no more runs than there are.
pub open spec fn players_wf(
    players: Seq<Player>,
    runs: Seq<GameRun>,
    rewards: Seq<TournamentReward>,
) -> bool {
    &&& distinct_players(players)
    &&& forall|i: int|
        0 <= i < players.len() ==> {
            &&& (#[trigger] players[i]).total_xp == xp_from_runs(runs, players[i].wallet_address)
                + xp_from_rewards(rewards, players[i].wallet_address)
            &&& players[i].total_runs <= runs.len()
        }
}

/// Prizes exist only in ended tournaments, one per wallet and tournament, each
/// for a player that exists.
pub open spec fn rewards_wf(
    rewards: Seq<TournamentReward>,
    tournaments: Seq<Tournament>,
    players: Seq<Player>,
) -> bool {
    &&& distinct_rewards(rewards)
    &&& forall|i: int|
        0 <= i < rewards.len() ==> {
            &&& 1 <= (#[trigger] rewards[i]).tournament_id <= tournaments.len()
            &&& tournaments[rewards[i].tournament_id - 1].status == TournamentStatus::Ended
            &&& has_player(players, rewards[i].wallet_address)
        }
}

/// Whether some player has this wallet and this username.
pub open spec fn names_player(players: Seq<Player>, wallet: [u8; 20], username: Seq<char>) -> bool {
    exists|j: int|
        0 <= j < players.len() && (#[trigger] players[j]).wallet_address == wallet && players[j].username@
            == username
}

/// Whether the index leads `username` to `wallet`.
pub open spec fn leads_to(
    index: Seq<UsernameEntry>,
    username: Seq<char>,
    wallet: [u8; 20],
) -> bool {
    exists|k: int|
        0 <= k < index.len() && (#[trigger] index[k]).username@ == username && index[k].wallet_address
            == wallet
}

/// No two profiles bear the same username.
pub open spec fn usernames_unique(players: Seq<Player>) -> bool {
    forall|i: int, j: int|
        0 <= i < j < players.len() ==> (#[trigger] players[i]).username@ != (#[trigger] players[j]).username@
}

/// Usernames are unique: no two profiles bear the same one, no username stands
/// twice in the index, each indexed username leads to a player that bears it,
/// and the index leads every player's username to that player's wallet.
pub open spec fn names_wf(index: Seq<UsernameEntry>, players: Seq<Player>) -> bool {
    &&& usernames_unique(players)
    &&& distinct_usernames(index)
    &&& forall|i: int|
        0 <= i < index.len() ==> names_player(
            players,
            (#[trigger] index[i]).wallet_address,
            index[i].username@,
        )
    &&& forall|j: int|
        0 <= j < players.len() ==> leads_to(
            index,
            (#[trigger] players[j]).username@,
            players[j].wallet_address,
        )
}

/// The feed holds the ids of the latest runs, newest first, at most
/// [`RECENT_RUNS_CAPACITY`] of them.
pub open spec fn recent_wf(recent: Seq<u64>, runs: nat) -> bool {
    &&& recent.len() == if runs < RECENT_RUNS_CAPACITY {
        runs
    } else {
        RECENT_RUNS_CAPACITY as nat
    }
    &&& forall|i: int| 0 <= i < recent.len() ==> #[trigger] recent[i] == runs - i
}

impl LabyrinthState {
    /// What holds of the store after every operation.
    pub open spec fn wf(&self) -> bool {
        &&& tournaments_wf(self.tournaments@, self.next_tournament_id)
        &&& runs_wf(self.runs@, self.next_run_id, self.tournaments@.len(), self.players@)
        &&& participants_wf(self.tournament_players@, self.tournaments@.len(), self.players@)
        &&& counts_wf(self.tournaments@, self.tournament_players@, self.runs@)
        &&& boards_wf(self.leaderboards@, self.tournaments@.len(), self.tournament_players@)
        &&& players_wf(self.players@, self.runs@, self.rewards@)
        &&& rewards_wf(self.rewards@, self.tournaments@, self.players@)
        &&& names_wf(self.username_to_wallet@, self.players@)
        &&& distinct_bindings(self.signer_to_wallet@)
        &&& recent_wf(self.recent_runs@, self.runs@.len())
        &&& (self.active_tournament_id is Some ==> 1 <= self.active_tournament_id.unwrap()
            <= self.tournaments@.len())
    }

    /// Whether `tournament_id` names a tournament.
    pub open spec fn has_tournament(&self, tournament_id: u64) -> bool {
        1 <= tournament_id <= self.tournaments@.len()
    }

    /// The tournament of that id, meaningful when there is one.
    pub open spec fn tournament(&self, tournament_id: u64) -> Tournament {
        self.tournaments@[tournament_id - 1]
    }

    /// The ranking of that tournament, meaningful when there is one.
    pub open spec fn board(&self, tournament_id: u64) -> Seq<LeaderboardEntry> {
        self.leaderboards@[tournament_id - 1]@
    }

    /// The store before anything happened: no rows, both counters at 1.
    pub fn new() -> (state: Self)
        ensures
            state.wf(),
            state.hub_chain_id is None,
            state.next_tournament_id == 1,
            state.next_run_id == 1,
            state.signer_to_wallet@.len() == 0,
            state.tournaments@.len() == 0,
            state.active_tournament_id is None,
            state.players@.len() == 0,
            state.username_to_wallet@.len() == 0,
            state.tournament_players@.len() == 0,
            state.leaderboards@.len() == 0,
            state.runs@.len() == 0,
            state.recent_runs@.len() == 0,
            state.rewards@.len() == 0,
    {
        LabyrinthState {
            hub_chain_id: None,
            next_tournament_id: 1,
            next_run_id: 1,
            signer_to_wallet: Vec::new(),
            tournaments: Vec::new(),
            active_tournament_id: None,
            players: Vec::new(),
            username_to_wallet: Vec::new(),
            tournament_players: Vec::new(),
            leaderboards: Vec::new(),
            runs: Vec::new(),
            recent_runs: Vec::new(),
            rewards: Vec::new(),
        }
    }
}

/// Where every profile keeps its place, wallet and username, and profiles are
/// only added, every wallet that had a profile still has one under the same
/// name.
pub proof fn lemma_players_kept(before: Seq<Player>, after: Seq<Player>)
    requires
        before.len() <= after.len(),
        forall|i: int|
            0 <= i < before.len() ==> (#[trigger] after[i]).wallet_address == before[i].wallet_address
                && after[i].username@ == before[i].username@,
    ensures
        forall|w: [u8; 20]| #[trigger] has_player(before, w) ==> has_player(after, w),
        forall|w: [u8; 20], name: Seq<char>| #[trigger]
            names_player(before, w, name) ==> names_player(after, w, name),
        before.len() == after.len() ==> forall|w: [u8; 20]| #[trigger]
            has_player(after, w) ==> has_player(before, w),
        before.len() == after.len() && distinct_players(before) ==> distinct_players(after),
{
    assert forall|w: [u8; 20]| #[trigger] has_player(before, w) implies has_player(after, w) by {
        let i = choose|i: int| 0 <= i < before.len() && (#[trigger] before[i]).wallet_address == w;
        assert(after[i].wallet_address == w);
    }
    assert forall|w: [u8; 20], name: Seq<char>| #[trigger]
        names_player(before, w, name) implies names_player(after, w, name) by {
        let j = choose|j: int|
            0 <= j < before.len() && (#[trigger] before[j]).wallet_address == w && before[j].username@
                == name;
        assert(after[j].wallet_address == w && after[j].username@ == name);
    }
    if before.len() == after.len() {
        assert forall|w: [u8; 20]| #[trigger] has_player(after, w) implies has_player(before, w) by {
            let i = choose|i: int| 0 <= i < after.len() && (#[trigger] after[i]).wallet_address == w;
            assert(before[i].wallet_address == w);
        }
        if distinct_players(before) {
            assert forall|i: int, j: int| 0 <= i < j < after.len() implies (#[trigger] after[i]).wallet_address
                != (#[trigger] after[j]).wallet_address by {
                assert(before[i].wallet_address != before[j].wallet_address);
            }
        }
    }
}

/// Where every profile keeps its place, wallet and username, the usernames
/// stay as unique and as indexed as they were.
pub proof fn lemma_names_kept(index: Seq<UsernameEntry>, before: Seq<Player>, after: Seq<Player>)
    requires
        names_wf(index, before),
        before.len() == after.len(),
        forall|i: int|
            0 <= i < before.len() ==> (#[trigger] after[i]).wallet_address == before[i].wallet_address
                && after[i].username@ == before[i].username@,
    ensures
        names_wf(index, after),
{
    lemma_players_kept(before, after);
    assert forall|i: int, j: int| 0 <= i < j < after.len() implies (#[trigger] after[i]).username@ != (
    #[trigger] after[j]).username@ by {
        assert(before[i].username@ != before[j].username@);
    }
    assert forall|i: int| 0 <= i < index.len() implies names_player(
        after,
        (#[trigger] index[i]).wallet_address,
        index[i].username@,
    ) by {
        assert(names_player(before, index[i].wallet_address, index[i].username@));
    }
    assert forall|j: int| 0 <= j < after.len() implies leads_to(
        index,
        (#[trigger] after[j]).username@,
        after[j].wallet_address,
    ) by {
        assert(leads_to(index, before[j].username@, before[j].wallet_address));
    }
}

/// An indexed username leads to one wallet only, and a username that leads to
/// a wallet is indexed.
pub proof fn lemma_leads_to(index: Seq<UsernameEntry>, username: Seq<char>, wallet: [u8; 20])
    requires
        distinct_usernames(index),
        leads_to(index, username, wallet),
    ensures
        has_username(index, username),
        index[username_index(index, username)].wallet_address == wallet,
{
    let k = choose|k: int|
        0 <= k < index.len() && (#[trigger] index[k]).username@ == username && index[k].wallet_address
            == wallet;
    assert(index[k].username@ == username);
    let m = username_index(index, username);
    assert(0 <= m < index.len() && index[m].username@ == username);
    if k < m {
        assert(index[k].username@ != index[m].username@);
    }
    if m < k {
        assert(index[m].username@ != index[k].username@);
    }
}

/// Where every row keeps its place, tournament and wallet, and rows are only
/// added, every participant is still one.
pub proof fn lemma_participants_kept(
    before: Seq<TournamentPlayerRow>,
    after: Seq<TournamentPlayerRow>,
)
    requires
        before.len() <= after.len(),
        forall|i: int|
            0 <= i < before.len() ==> (#[trigger] after[i]).tournament_id == before[i].tournament_id
                && after[i].player.wallet_address == before[i].player.wallet_address,
    ensures
        forall|t: u64, w: [u8; 20]| #[trigger]
            has_participant(before, t, w) ==> has_participant(after, t, w),
{
    assert forall|t: u64, w: [u8; 20]| #[trigger] has_participant(before, t, w) implies has_participant(
        after,
        t,
        w,
    ) by {
        let i = choose|i: int| 0 <= i < before.len() && row_is(#[trigger] before[i], t, w);
        assert(row_is(after[i], t, w));
    }
}

/// In a table without repeated participants, the row of a participant stands
/// where any row of that participant stands.
pub proof fn lemma_participant_index(
    rows: Seq<TournamentPlayerRow>,
    tournament_id: u64,
    wallet: [u8; 20],
    i: int,
)
    requires
        distinct_participants(rows),
        0 <= i < rows.len(),
        row_is(rows[i], tournament_id, wallet),
    ensures
        has_participant(rows, tournament_id, wallet),
        participant_index(rows, tournament_id, wallet) == i,
        participant_of(rows, tournament_id, wallet) == rows[i].player,
{
    let k = participant_index(rows, tournament_id, wallet);
    assert(0 <= k < rows.len() && row_is(rows[k], tournament_id, wallet));
    if k < i {
        assert(!row_is(rows[k], rows[i].tournament_id, rows[i].player.wallet_address));
    }
    if i < k {
        assert(!row_is(rows[i], rows[k].tournament_id, rows[k].player.wallet_address));
    }
}

/// In a table without repeated wallets, the profile of a wallet stands where
/// any profile with that wallet stands.
pub proof fn lemma_player_index(players: Seq<Player>, wallet: [u8; 20], i: int)
    requires
        distinct_players(players),
        0 <= i < players.len(),
        players[i].wallet_address == wallet,
    ensures
        has_player(players, wallet),
        player_index(players, wallet) == i,
{
    let k = player_index(players, wallet);
    assert(0 <= k < players.len() && players[k].wallet_address == wallet);
    if k < i {
        assert(players[k].wallet_address != players[i].wallet_address);
    }
    if i < k {
        assert(players[i].wallet_address != players[k].wallet_address);
    }
}

// ---------------------------------------------------------------------------
// Finding rows
// ---------------------------------------------------------------------------

/// The position of the profile of `wallet`, if it has one.
pub fn find_player(players: &Vec<Player>, wallet: &[u8; 20]) -> (found: Option<usize>)
    ensures
        found is Some <==> has_player(players@, *wallet),
        found is Some ==> found.unwrap() < players@.len() && players@[found.unwrap() as int].wallet_address
            == *wallet,
        found is Some && distinct_players(players@) ==> found.unwrap() == player_index(players@, *wallet),
        found is Some ==> forall|j: int|
            0 <= j < found.unwrap() ==> (#[trigger] players@[j]).wallet_address != *wallet,
{
    let mut i: usize = 0;
    while i < players.len()
        invariant
            i <= players.len(),
            forall|j: int| 0 <= j < i ==> (#[trigger] players@[j]).wallet_address != *wallet,
        decreases players.len() - i,
    {
        if same_wallet(&players[i].wallet_address, wallet) {
            return Some(i);
        }
        i += 1;
    }
    None
}

/// The position of the row of `wallet` in tournament `tournament_id`, if any.
pub fn find_participant(
    rows: &Vec<TournamentPlayerRow>,
    tournament_id: u64,
    wallet: &[u8; 20],
) -> (found: Option<usize>)
    ensures
        found is Some <==> has_participant(rows@, tournament_id, *wallet),
        found is Some ==> found.unwrap() < rows@.len() && row_is(
            rows@[found.unwrap() as int],
            tournament_id,
            *wallet,
        ),
        found is Some && distinct_participants(rows@) ==> found.unwrap() == participant_index(
            rows@,
            tournament_id,
            *wallet,
        ),
        found is Some ==> forall|j: int|
            0 <= j < found.unwrap() ==> !row_is(#[trigger] rows@[j], tournament_id, *wallet),
{
    let mut i: usize = 0;
    while i < rows.len()
        invariant
            i <= rows.len(),
            forall|j: int| 0 <= j < i ==> !row_is(#[trigger] rows@[j], tournament_id, *wallet),
        decreases rows.len() - i,
    {
        if rows[i].tournament_id == tournament_id && same_wallet(&rows[i].player.wallet_address, wallet) {
            return Some(i);
        }
        i += 1;
    }
    None
}

/// The position of the prize of `wallet` in tournament `tournament_id`, if any.
pub fn find_reward(
    rewards: &Vec<TournamentReward>,
    tournament_id: u64,
    wallet: &[u8; 20],
) -> (found: Option<usize>)
    ensures
        found is Some <==> has_reward(rewards@, tournament_id, *wallet),
        found is Some ==> found.unwrap() < rewards@.len() && reward_is(
            rewards@[found.unwrap() as int],
            tournament_id,
            *wallet,
        ),
        found is Some && distinct_rewards(rewards@) ==> found.unwrap() == reward_index(
            rewards@,
            tournament_id,
            *wallet,
        ),
        found is Some ==> forall|j: int|
            0 <= j < found.unwrap() ==> !reward_is(#[trigger] rewards@[j], tournament_id, *wallet),
{
    let mut i: usize = 0;
    while i < rewards.len()
        invariant
            i <= rewards.len(),
            forall|j: int| 0 <= j < i ==> !reward_is(#[trigger] rewards@[j], tournament_id, *wallet),
        decreases rewards.len() - i,
    {
        if rewards[i].tournament_id == tournament_id && same_wallet(&rewards[i].wallet_address, wallet) {
            return Some(i);
        }
        i += 1;
    }
    None
}

/// The position of `username` in the index, if it is there.
pub fn find_username(index: &Vec<UsernameEntry>, username: &String) -> (found: Option<usize>)
    ensures
        found is Some <==> has_username(index@, username@),
        found is Some ==> found.unwrap() < index@.len() && index@[found.unwrap() as int].username@
            == username@,
        found is Some && distinct_usernames(index@) ==> found.unwrap() == username_index(
            index@,
            username@,
        ),
        found is Some ==> forall|j: int|
            0 <= j < found.unwrap() ==> (#[trigger] index@[j]).username@ != username@,
{
    let mut i: usize = 0;
    while i < index.len()
        invariant
            i <= index.len(),
            forall|j: int| 0 <= j < i ==> (#[trigger] index@[j]).username@ != username@,
        decreases index.len() - i,
    {
        if index[i].username == *username {
            return Some(i);
        }
        i += 1;
    }
    None
}

/// The position of the binding of `signer`, if it is bound.
pub fn find_binding(bindings: &Vec<SignerBinding>, signer: &AccountOwner) -> (found: Option<usize>)
    ensures
        found is Some <==> has_binding(bindings@, *signer),
        found is Some ==> found.unwrap() < bindings@.len() && bindings@[found.unwrap() as int].signer
            == *signer,
        found is Some && distinct_bindings(bindings@) ==> found.unwrap() == binding_index(
            bindings@,
            *signer,
        ),
        found is Some ==> forall|j: int|
            0 <= j < found.unwrap() ==> (#[trigger] bindings@[j]).signer != *signer,
{
    let mut i: usize = 0;
    while i < bindings.len()
        invariant
            i <= bindings.len(),
            forall|j: int| 0 <= j < i ==> (#[trigger] bindings@[j]).signer != *signer,
        decreases bindings.len() - i,
    {
        if same_owner(&bindings[i].signer, signer) {
            return Some(i);
        }
        i += 1;
    }
    None
}


} // verus!
