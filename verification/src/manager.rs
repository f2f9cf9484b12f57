//! The tournament manager: creating tournaments, the default championship,
//! finalizing a tournament and handing out its prizes.

use vstd::prelude::*;
use crate::contract::LabyrinthTournamentContract;
use crate::leaderboard::{
    board_wf, lists_wallet,
};
use crate::types::LeaderboardEntry;
use crate::registrar::bound_wallet;
use crate::state::{
    counts_wf, find_binding, find_player, find_reward, has_binding, has_player, has_reward,
    lemma_participants_in_bounds, lemma_player_index, lemma_players_kept,
    lemma_names_kept, lemma_runs_in_bounds, lemma_xp_from_rewards_push, lemma_xp_from_rewards_update,
    participant_index, participants_in, participants_wf, player_index, players_wf,
    reward_index, reward_is, rewards_wf, row_is, runs_in, runs_wf, tournaments_wf, xp_from_rewards,
    xp_from_runs, LabyrinthState,
};
use crate::text::{decimal, decimal_string};
use crate::types::{
    AccountOwner, Difficulty, InitializationArgument, Player, Response, Tournament, TournamentError,
    TournamentReward, TournamentStatus,
};

verus! {

/// Microseconds in a day.
pub const MICROS_PER_DAY: u64 = 86_400_000_000;

/// How many days the default tournament lasts.
pub const DEFAULT_DURATION_DAYS: u64 = 15;

/// The prize pool of the default tournament.
pub const DEFAULT_REWARD_POOL: u64 = 10_000;

/// Whether `tournament` is the default championship as created at `now`.
pub open spec fn is_default_tournament(tournament: Tournament, now: u64) -> bool {
    &&& tournament.id == 1
    &&& tournament.title@ == "Labyrinth Legends Championship"@
    &&& tournament.description@ == "15-day tournament - Navigate the maze faster than anyone else!"@
    &&& tournament.maze_seed@ == "labyrinth_legends_"@ + decimal((now / 1_000_000) as nat)
    &&& tournament.difficulty == Difficulty::Medium
    &&& tournament.start_time == now
    &&& tournament.end_time == now + DEFAULT_DURATION_DAYS * MICROS_PER_DAY
    &&& tournament.status == TournamentStatus::Active
    &&& tournament.participant_count == 0
    &&& tournament.total_runs == 0
    &&& tournament.xp_reward_pool == DEFAULT_REWARD_POOL
    &&& tournament.created_at == now
}

/// What bootstrapping at `now` answers in state `before`.
pub open spec fn bootstrap_result(
    before: LabyrinthState,
    now: u64,
) -> Result<Response, TournamentError> {
    if before.has_tournament(1) {
        Ok(
            Response::TournamentBootstrapped {
                id: 1,
                end_time: before.tournament(1).end_time,
                already_existed: true,
            },
        )
    } else if now + DEFAULT_DURATION_DAYS * MICROS_PER_DAY > u64::MAX {
        Err(TournamentError::InvalidTimes)
    } else {
        Ok(
            Response::TournamentBootstrapped {
                id: 1,
                end_time: (now + DEFAULT_DURATION_DAYS * MICROS_PER_DAY) as u64,
                already_existed: false,
            },
        )
    }
}

/// How bootstrapping at `now` takes the state `before` to `after`: an
/// existing tournament 1 is published as active and nothing else changes;
/// otherwise the default championship is created, with an empty ranking.
pub open spec fn bootstrap_effect(before: LabyrinthState, after: LabyrinthState, now: u64) -> bool {
    if before.has_tournament(1) {
        after == (LabyrinthState { active_tournament_id: Some(1), ..before })
    } else if now + DEFAULT_DURATION_DAYS * MICROS_PER_DAY > u64::MAX {
        after == before
    } else {
        &&& after.tournaments@.len() == before.tournaments@.len() + 1
        &&& after.tournaments@.drop_last() == before.tournaments@
        &&& is_default_tournament(after.tournaments@.last(), now)
        &&& after.leaderboards@.len() == before.leaderboards@.len() + 1
        &&& after.leaderboards@.drop_last() == before.leaderboards@
        &&& after.leaderboards@.last()@.len() == 0
        &&& after.next_tournament_id == 2
        &&& after.active_tournament_id == Some(1u64)
        &&& after.hub_chain_id == before.hub_chain_id
        &&& after.next_run_id == before.next_run_id
        &&& after.signer_to_wallet == before.signer_to_wallet
        &&& after.players == before.players
        &&& after.username_to_wallet == before.username_to_wallet
        &&& after.tournament_players == before.tournament_players
        &&& after.runs == before.runs
        &&& after.recent_runs == before.recent_runs
        &&& after.rewards == before.rewards
    }
}

/// The time a tournament created at `now` for `duration_days` days ends.
pub open spec fn end_time_of(now: u64, duration_days: u64) -> int {
    now + duration_days * MICROS_PER_DAY
}

/// The tournament that `create_tournament` opens.
pub open spec fn opened_tournament(
    id: u64,
    title: String,
    description: String,
    maze_seed: String,
    difficulty: Difficulty,
    duration_days: u64,
    xp_reward_pool: u64,
    now: u64,
) -> Tournament {
    Tournament {
        id,
        title,
        description,
        maze_seed,
        difficulty,
        start_time: now,
        end_time: end_time_of(now, duration_days) as u64,
        status: TournamentStatus::Active,
        participant_count: 0,
        total_runs: 0,
        xp_reward_pool,
        created_at: now,
    }
}

/// What opening a tournament answers: `InvalidDuration` for no days,
/// `InvalidTimes` where no timestamp can hold the end time, else the new
/// tournament's id, maze seed and end time.
pub open spec fn create_result(
    before: LabyrinthState,
    maze_seed: String,
    duration_days: u64,
    now: u64,
) -> Result<Response, TournamentError> {
    if duration_days == 0 {
        Err(TournamentError::InvalidDuration)
    } else if end_time_of(now, duration_days) > u64::MAX {
        Err(TournamentError::InvalidTimes)
    } else {
        Ok(
            Response::TournamentCreated {
                id: before.next_tournament_id,
                maze_seed,
                end_time: end_time_of(now, duration_days) as u64,
            },
        )
    }
}

/// How opening a tournament takes `before` to `after`. A refusal changes
/// nothing. Otherwise the tournament is appended under the next id with an
/// empty ranking, and published as active.
pub open spec fn create_effect(
    before: LabyrinthState,
    after: LabyrinthState,
    title: String,
    description: String,
    maze_seed: String,
    difficulty: Difficulty,
    duration_days: u64,
    xp_reward_pool: u64,
    now: u64,
) -> bool {
    if duration_days == 0 || end_time_of(now, duration_days) > u64::MAX {
        after == before
    } else {
        &&& after.tournaments@ == before.tournaments@.push(
            opened_tournament(
                before.next_tournament_id,
                title,
                description,
                maze_seed,
                difficulty,
                duration_days,
                xp_reward_pool,
                now,
            ),
        )
        &&& after.leaderboards@.len() == before.leaderboards@.len() + 1
        &&& after.leaderboards@.drop_last() == before.leaderboards@
        &&& after.leaderboards@.last()@.len() == 0
        &&& after.next_tournament_id == before.next_tournament_id + 1
        &&& after.active_tournament_id == Some(before.next_tournament_id)
        &&& after.hub_chain_id == before.hub_chain_id
        &&& after.next_run_id == before.next_run_id
        &&& after.signer_to_wallet == before.signer_to_wallet
        &&& after.players == before.players
        &&& after.username_to_wallet == before.username_to_wallet
        &&& after.tournament_players == before.tournament_players
        &&& after.runs == before.runs
        &&& after.recent_runs == before.recent_runs
        &&& after.rewards == before.rewards
    }
}

/// How many of the first ranks win a prize.
pub const PRIZE_PLACES: usize = 5;

/// The share of the pool, in percent, that the place wins; places count
/// from 0.
pub open spec fn prize_share(place: int) -> int {
    if place == 0 {
        40
    } else if place == 1 {
        25
    } else if place == 2 {
        15
    } else if place == 3 {
        12
    } else {
        8
    }
}

/// The prize of a place: its share of the pool, rounded down.
pub open spec fn prize(pool: u64, place: int) -> u64 {
    (pool * prize_share(place) / 100) as u64
}

/// The lines that win a prize: the first [`PRIZE_PLACES`] of the ranking.
pub open spec fn podium(board: Seq<LeaderboardEntry>) -> Seq<LeaderboardEntry> {
    if board.len() > PRIZE_PLACES {
        board.take(PRIZE_PLACES as int)
    } else {
        board
    }
}

/// The prize record of the line at `place`.
pub open spec fn prize_of(
    tournament_id: u64,
    entry: LeaderboardEntry,
    pool: u64,
    place: int,
) -> TournamentReward {
    TournamentReward {
        tournament_id,
        wallet_address: entry.wallet_address,
        rank: entry.rank,
        xp_amount: prize(pool, place),
        claimed: false,
    }
}

/// The prize records of the winners, in the order of their places.
pub open spec fn prizes(
    tournament_id: u64,
    winners: Seq<LeaderboardEntry>,
    pool: u64,
) -> Seq<TournamentReward> {
    Seq::new(winners.len(), |place: int| prize_of(tournament_id, winners[place], pool, place))
}

/// The profile with one prize credited: the amount is added to the
/// experience, and a first place counts as a tournament won.
pub open spec fn with_prize(player: Player, amount: u64, first: bool) -> Player {
    Player {
        total_xp: (player.total_xp + amount) as u64,
        tournaments_won: if first {
            (player.tournaments_won + 1) as u32
        } else {
            player.tournaments_won
        },
        ..player
    }
}

/// The profile after the prizes of `winners` are credited, place by place:
/// each place held by the profile's wallet credits its prize.
pub open spec fn awarded(player: Player, winners: Seq<LeaderboardEntry>, pool: u64) -> Player
    decreases winners.len(),
{
    if winners.len() == 0 {
        player
    } else {
        let place = winners.len() - 1;
        let so_far = awarded(player, winners.drop_last(), pool);
        if winners.last().wallet_address == player.wallet_address {
            with_prize(so_far, prize(pool, place), place == 0)
        } else {
            so_far
        }
    }
}

/// Whether the tournament can be finalized at `now`: it must exist, not have
/// ended, and have reached its end time.
pub open spec fn ending(
    state: LabyrinthState,
    tournament_id: u64,
    now: u64,
) -> Result<(), TournamentError> {
    if !state.has_tournament(tournament_id) {
        Err(TournamentError::TournamentNotFound)
    } else if state.tournament(tournament_id).status == TournamentStatus::Ended {
        Err(TournamentError::AlreadyEnded)
    } else if now < state.tournament(tournament_id).end_time {
        Err(TournamentError::NotYetDue { end_time: state.tournament(tournament_id).end_time })
    } else {
        Ok(())
    }
}

/// Whether every winner's profile has room for its prize, and the first
/// winner's for one more tournament won.
pub open spec fn prizes_fit(state: LabyrinthState, tournament_id: u64) -> bool {
    let winners = podium(state.board(tournament_id));
    let pool = state.tournament(tournament_id).xp_reward_pool;
    forall|j: int, place: int|
        0 <= j < state.players@.len() && 0 <= place < winners.len() && (
        #[trigger] state.players@[j]).wallet_address == (#[trigger] winners[place]).wallet_address ==> {
            &&& state.players@[j].total_xp + prize(pool, place) <= u64::MAX
            &&& place == 0 ==> state.players@[j].tournaments_won < u32::MAX
        }
}

/// What finalizing answers: the refusal, or the number of winners.
pub open spec fn end_result(
    state: LabyrinthState,
    tournament_id: u64,
    now: u64,
) -> Result<Response, TournamentError> {
    match ending(state, tournament_id, now) {
        Err(refusal) => Err(refusal),
        Ok(_) => Ok(
            Response::TournamentEnded {
                id: tournament_id,
                winner_count: podium(state.board(tournament_id)).len() as u32,
            },
        ),
    }
}

/// How finalizing takes `before` to `after`. A refusal changes nothing.
/// Otherwise the tournament is ended, it is no longer published as active,
/// one unclaimed prize is recorded for each line of the podium, and each
/// prize is credited to its winner's profile.
pub open spec fn end_effect(
    before: LabyrinthState,
    after: LabyrinthState,
    tournament_id: u64,
    now: u64,
) -> bool {
    if ending(before, tournament_id, now) is Err {
        after == before
    } else {
        let winners = podium(before.board(tournament_id));
        let pool = before.tournament(tournament_id).xp_reward_pool;
        &&& after.tournaments@ == before.tournaments@.update(
            tournament_id - 1,
            Tournament { status: TournamentStatus::Ended, ..before.tournament(tournament_id) },
        )
        &&& after.active_tournament_id == if before.active_tournament_id == Some(tournament_id) {
            None
        } else {
            before.active_tournament_id
        }
        &&& after.rewards@ == before.rewards@ + prizes(tournament_id, winners, pool)
        &&& after.players@.len() == before.players@.len()
        &&& forall|j: int|
            0 <= j < before.players@.len() ==> #[trigger] after.players@[j] == awarded(
                before.players@[j],
                winners,
                pool,
            )
        &&& after.hub_chain_id == before.hub_chain_id
        &&& after.next_tournament_id == before.next_tournament_id
        &&& after.next_run_id == before.next_run_id
        &&& after.signer_to_wallet == before.signer_to_wallet
        &&& after.username_to_wallet == before.username_to_wallet
        &&& after.tournament_players == before.tournament_players
        &&& after.leaderboards == before.leaderboards
        &&& after.runs == before.runs
        &&& after.recent_runs == before.recent_runs
    }
}

/// What claiming answers for the caller `signer`: `NotRegistered` where it is
/// bound to no wallet, `NoReward` where the wallet holds no prize of the
/// tournament, `AlreadyClaimed` where the prize was claimed, else the amount.
pub open spec fn claim_result(
    state: LabyrinthState,
    signer: AccountOwner,
    tournament_id: u64,
) -> Result<Response, TournamentError> {
    if !has_binding(state.signer_to_wallet@, signer) {
        Err(TournamentError::NotRegistered)
    } else {
        let wallet = bound_wallet(state.signer_to_wallet@, signer);
        if !has_reward(state.rewards@, tournament_id, wallet) {
            Err(TournamentError::NoReward)
        } else {
            let reward = state.rewards@[reward_index(state.rewards@, tournament_id, wallet)];
            if reward.claimed {
                Err(TournamentError::AlreadyClaimed)
            } else {
                Ok(Response::RewardClaimed { tournament_id, xp_amount: reward.xp_amount })
            }
        }
    }
}

/// How claiming takes `before` to `after`: an accepted claim marks the prize
/// as claimed, and nothing else changes; a refusal changes nothing.
pub open spec fn claim_effect(
    before: LabyrinthState,
    after: LabyrinthState,
    signer: AccountOwner,
    tournament_id: u64,
) -> bool {
    if claim_result(before, signer, tournament_id) is Err {
        after == before
    } else {
        let wallet = bound_wallet(before.signer_to_wallet@, signer);
        let at = reward_index(before.rewards@, tournament_id, wallet);
        &&& after.rewards@ == before.rewards@.update(
            at,
            TournamentReward { claimed: true, ..before.rewards@[at] },
        )
        &&& after == (LabyrinthState { rewards: after.rewards, ..before })
    }
}

/// A profile whose wallet holds no place among the winners is left as it is.
pub proof fn lemma_awarded_skips(player: Player, winners: Seq<LeaderboardEntry>, pool: u64)
    requires
        forall|k: int| 0 <= k < winners.len() ==> (#[trigger] winners[k]).wallet_address != player.wallet_address,
    ensures
        awarded(player, winners, pool) == player,
    decreases winners.len(),
{
    if winners.len() > 0 {
        let init = winners.drop_last();
        assert(forall|k: int| 0 <= k < init.len() ==> init[k] == winners[k]);
        lemma_awarded_skips(player, init, pool);
        assert(winners.last() == winners[winners.len() - 1]);
    }
}

/// Crediting prizes changes neither the wallet nor the username nor the time
/// of registration of a profile.
pub proof fn lemma_awarded_keeps_identity(player: Player, winners: Seq<LeaderboardEntry>, pool: u64)
    ensures
        awarded(player, winners, pool).wallet_address == player.wallet_address,
        awarded(player, winners, pool).username == player.username,
        awarded(player, winners, pool).registered_at == player.registered_at,
    decreases winners.len(),
{
    if winners.len() > 0 {
        lemma_awarded_keeps_identity(player, winners.drop_last(), pool);
    }
}

/// A prize is no more than the pool.
pub proof fn lemma_prize_within_pool(pool: u64, place: int)
    ensures
        0 <= pool * prize_share(place) / 100 <= pool,
{
    let share = prize_share(place);
    assert(0 <= pool * share / 100 <= pool) by (nonlinear_arith)
        requires
            0 <= pool,
            0 < share <= 100,
    ;
}

/// Ending a tournament, before any prize is recorded, leaves a well-formed
/// store well-formed.
proof fn lemma_ending_keeps_wf(before: LabyrinthState, after: LabyrinthState, tournament_id: u64)
    requires
        before.wf(),
        before.has_tournament(tournament_id),
        after.tournaments@ == before.tournaments@.update(
            tournament_id - 1,
            Tournament { status: TournamentStatus::Ended, ..before.tournaments@[tournament_id - 1] },
        ),
        after.active_tournament_id == before.active_tournament_id || after.active_tournament_id is None,
        after == (LabyrinthState {
            tournaments: after.tournaments,
            active_tournament_id: after.active_tournament_id,
            ..before
        }),
    ensures
        after.wf(),
{
    let ts = before.tournaments@;
    let ts2 = after.tournaments@;
    assert(tournaments_wf(ts2, after.next_tournament_id)) by {
        assert forall|i: int| 0 <= i < ts2.len() implies (#[trigger] ts2[i]).id == i + 1 && ts2[i].start_time
            < ts2[i].end_time by {
            assert(ts[i].id == i + 1 && ts[i].start_time < ts[i].end_time);
        }
    }
    assert(counts_wf(ts2, after.tournament_players@, after.runs@)) by {
        assert forall|i: int| 0 <= i < ts2.len() implies {
            &&& (#[trigger] ts2[i]).participant_count == participants_in(
                after.tournament_players@,
                (i + 1) as u64,
            )
            &&& ts2[i].total_runs == runs_in(after.runs@, (i + 1) as u64)
        } by {
            assert(ts[i].participant_count == participants_in(
                before.tournament_players@,
                (i + 1) as u64,
            ));
        }
    }
    assert(rewards_wf(after.rewards@, ts2, after.players@)) by {
        assert forall|i: int| 0 <= i < after.rewards@.len() implies {
            &&& 1 <= (#[trigger] after.rewards@[i]).tournament_id <= ts2.len()
            &&& ts2[after.rewards@[i].tournament_id - 1].status == TournamentStatus::Ended
            &&& has_player(after.players@, after.rewards@[i].wallet_address)
        } by {
            assert(ts[before.rewards@[i].tournament_id - 1].status == TournamentStatus::Ended);
        }
    }
}

/// One prize recorded and credited to its winner leaves a well-formed store
/// well-formed.
proof fn lemma_award_keeps_wf(
    before: LabyrinthState,
    after: LabyrinthState,
    reward: TournamentReward,
    j: int,
    first: bool,
)
    requires
        before.wf(),
        0 <= j < before.players@.len(),
        before.players@[j].wallet_address == reward.wallet_address,
        before.has_tournament(reward.tournament_id),
        before.tournament(reward.tournament_id).status == TournamentStatus::Ended,
        !has_reward(before.rewards@, reward.tournament_id, reward.wallet_address),
        before.players@[j].total_xp + reward.xp_amount <= u64::MAX,
        after.rewards@ == before.rewards@.push(reward),
        after.players@ == before.players@.update(j, with_prize(before.players@[j], reward.xp_amount, first)),
        after == (LabyrinthState { rewards: after.rewards, players: after.players, ..before }),
    ensures
        after.wf(),
{
    let ps = before.players@;
    let qs = after.players@;
    lemma_players_kept(ps, qs);
    let rs = before.rewards@;
    let rs2 = after.rewards@;
    assert(runs_wf(after.runs@, after.next_run_id, after.tournaments@.len(), qs)) by {
        assert forall|i: int| 0 <= i < after.runs@.len() implies has_player(
            qs,
            (#[trigger] after.runs@[i]).wallet_address,
        ) by {
            assert(has_player(ps, before.runs@[i].wallet_address));
        }
    }
    assert(participants_wf(after.tournament_players@, after.tournaments@.len(), qs)) by {
        assert forall|i: int| 0 <= i < after.tournament_players@.len() implies has_player(
            qs,
            (#[trigger] after.tournament_players@[i]).player.wallet_address,
        ) by {
            assert(has_player(ps, before.tournament_players@[i].player.wallet_address));
        }
    }
    assert(players_wf(qs, after.runs@, rs2)) by {
        assert forall|i: int| 0 <= i < qs.len() implies {
            &&& (#[trigger] qs[i]).total_xp == xp_from_runs(after.runs@, qs[i].wallet_address)
                + xp_from_rewards(rs2, qs[i].wallet_address)
            &&& qs[i].total_runs <= after.runs@.len()
        } by {
            lemma_xp_from_rewards_push(rs, reward, qs[i].wallet_address);
            if i != j {
                assert(qs[i] == ps[i]);
                if i < j {
                    assert(ps[i].wallet_address != ps[j].wallet_address);
                } else {
                    assert(ps[j].wallet_address != ps[i].wallet_address);
                }
            }
        }
    }
    assert(rewards_wf(rs2, after.tournaments@, qs)) by {
        assert forall|i: int| 0 <= i < rs2.len() implies {
            &&& 1 <= (#[trigger] rs2[i]).tournament_id <= after.tournaments@.len()
            &&& after.tournaments@[rs2[i].tournament_id - 1].status == TournamentStatus::Ended
            &&& has_player(qs, rs2[i].wallet_address)
        } by {
            if i < rs.len() {
                assert(rs2[i] == rs[i]);
                assert(has_player(ps, rs[i].wallet_address));
            } else {
                assert(has_player(ps, reward.wallet_address));
            }
        }
        assert forall|a: int, b: int| 0 <= a < b < rs2.len() implies !reward_is(
            #[trigger] rs2[a],
            (#[trigger] rs2[b]).tournament_id,
            rs2[b].wallet_address,
        ) by {
            assert(rs2[a] == rs[a]);
            if b < rs.len() {
                assert(rs2[b] == rs[b]);
            } else {
                assert(!reward_is(rs[a], reward.tournament_id, reward.wallet_address));
            }
        }
    }
    lemma_names_kept(before.username_to_wallet@, ps, qs);
}

/// Whether the prizes of a tournament can be handed out: the store is
/// well-formed, the tournament has ended, no prize of it is recorded yet, and
/// every winner's profile has room.
pub open spec fn distribution_ready(before: LabyrinthState, tournament_id: u64) -> bool {
    &&& before.wf()
    &&& before.has_tournament(tournament_id)
    &&& before.tournament(tournament_id).status == TournamentStatus::Ended
    &&& prizes_fit(before, tournament_id)
    &&& forall|i: int|
        0 <= i < before.rewards@.len() ==> (#[trigger] before.rewards@[i]).tournament_id != tournament_id
}

/// Whether `current` is `before` with the prizes of the first `place` winners
/// recorded and credited.
pub open spec fn paid_through(
    before: LabyrinthState,
    current: LabyrinthState,
    tournament_id: u64,
    place: int,
) -> bool {
    let winners = podium(before.board(tournament_id)).take(place);
    let pool = before.tournament(tournament_id).xp_reward_pool;
    &&& current.rewards@ == before.rewards@ + prizes(tournament_id, winners, pool)
    &&& current.players@.len() == before.players@.len()
    &&& forall|j: int|
        0 <= j < before.players@.len() ==> #[trigger] current.players@[j] == awarded(
            before.players@[j],
            winners,
            pool,
        )
    &&& current == (LabyrinthState { rewards: current.rewards, players: current.players, ..before })
}

/// The next prize can be recorded and credited: its winner has a profile that
/// was not credited yet and has room, and holds no prize of the tournament.
proof fn lemma_next_prize(before: LabyrinthState, entering: LabyrinthState, tournament_id: u64, place: int)
    requires
        distribution_ready(before, tournament_id),
        entering.wf(),
        paid_through(before, entering, tournament_id, place),
        0 <= place < podium(before.board(tournament_id)).len(),
    ensures
        ({
            let wallet = podium(before.board(tournament_id))[place].wallet_address;
            let pool = before.tournament(tournament_id).xp_reward_pool;
            let j = player_index(entering.players@, wallet);
            &&& entering.has_tournament(tournament_id)
            &&& entering.tournament(tournament_id).status == TournamentStatus::Ended
            &&& !has_reward(entering.rewards@, tournament_id, wallet)
            &&& has_player(entering.players@, wallet)
            &&& j == player_index(before.players@, wallet)
            &&& entering.players@[j] == before.players@[j]
            &&& entering.players@[j].total_xp + prize(pool, place) <= u64::MAX
            &&& place == 0 ==> entering.players@[j].tournaments_won < u32::MAX
        }),
{
    let winners = podium(before.board(tournament_id));
    let so_far = winners.take(place);
    let board = before.board(tournament_id);
    let pool = before.tournament(tournament_id).xp_reward_pool;
    let wallet = winners[place].wallet_address;
    let slot = tournament_id - 1;
    assert(winners[place] == board[place]);
    assert(board_wf(before.leaderboards@[slot]@));
    assert(lists_wallet(before.leaderboards@[slot]@, wallet));
    let r = participant_index(before.tournament_players@, tournament_id, wallet);
    assert(row_is(before.tournament_players@[r], tournament_id, wallet));
    assert(has_player(before.players@, wallet));
    let j = player_index(before.players@, wallet);
    assert(0 <= j < before.players@.len() && before.players@[j].wallet_address == wallet);
    assert forall|k: int| 0 <= k < so_far.len() implies (#[trigger] so_far[k]).wallet_address != wallet by {
        assert(so_far[k] == board[k]);
        assert(board[k].wallet_address != board[place].wallet_address);
    }
    lemma_awarded_skips(before.players@[j], so_far, pool);
    assert(entering.players@[j] == before.players@[j]);
    lemma_player_index(entering.players@, wallet, j);
    assert(before.players@[j].wallet_address == winners[place].wallet_address);
    assert forall|i: int| 0 <= i < entering.rewards@.len() implies !reward_is(
        #[trigger] entering.rewards@[i],
        tournament_id,
        wallet,
    ) by {
        if i >= before.rewards@.len() {
            let k = i - before.rewards@.len();
            assert(entering.rewards@[i] == prize_of(tournament_id, so_far[k], pool, k));
        }
    }
}

/// Once the next prize is recorded and credited, the prizes of one more
/// winner are.
proof fn lemma_prize_paid(
    before: LabyrinthState,
    entering: LabyrinthState,
    after: LabyrinthState,
    tournament_id: u64,
    place: int,
)
    requires
        distribution_ready(before, tournament_id),
        entering.wf(),
        paid_through(before, entering, tournament_id, place),
        0 <= place < podium(before.board(tournament_id)).len(),
        ({
            let winner = podium(before.board(tournament_id))[place];
            let pool = before.tournament(tournament_id).xp_reward_pool;
            let j = player_index(entering.players@, winner.wallet_address);
            &&& after.rewards@ == entering.rewards@.push(prize_of(tournament_id, winner, pool, place))
            &&& after.players@ == entering.players@.update(
                j,
                with_prize(entering.players@[j], prize(pool, place), place == 0),
            )
            &&& after == (LabyrinthState { rewards: after.rewards, players: after.players, ..entering })
        }),
    ensures
        paid_through(before, after, tournament_id, place + 1),
{
    lemma_next_prize(before, entering, tournament_id, place);
    let winners = podium(before.board(tournament_id));
    let so_far = winners.take(place);
    let next = winners.take(place + 1);
    let pool = before.tournament(tournament_id).xp_reward_pool;
    let wallet = winners[place].wallet_address;
    let j = player_index(before.players@, wallet);
    assert(0 <= j < before.players@.len() && before.players@[j].wallet_address == wallet);
    assert(next.drop_last() =~= so_far);
    assert(next.last() == winners[place]);
    assert forall|i: int| 0 <= i < before.players@.len() implies #[trigger] after.players@[i] == awarded(
        before.players@[i],
        next,
        pool,
    ) by {
        if i != j {
            assert(after.players@[i] == entering.players@[i]);
            if i < j {
                assert(before.players@[i].wallet_address != before.players@[j].wallet_address);
            } else {
                assert(before.players@[j].wallet_address != before.players@[i].wallet_address);
            }
        }
    }
    let a = after.rewards@;
    let b = before.rewards@ + prizes(tournament_id, next, pool);
    assert forall|i: int| 0 <= i < a.len() implies #[trigger] a[i] == b[i] by {
        if i < entering.rewards@.len() {
            assert(a[i] == entering.rewards@[i]);
            if i >= before.rewards@.len() {
                let k = i - before.rewards@.len();
                assert(so_far[k] == next[k]);
            }
        }
    }
    assert(a =~= b);
}

/// The prize of a place.
pub fn prize_amount(pool: u64, place: usize) -> (amount: u64)
    ensures
        amount == prize(pool, place as int),
{
    let share: u128 = if place == 0 {
        40
    } else if place == 1 {
        25
    } else if place == 2 {
        15
    } else if place == 3 {
        12
    } else {
        8
    };
    proof {
        lemma_prize_within_pool(pool, place as int);
    }
    assert(pool as u128 * share <= u64::MAX as u128 * 100) by (nonlinear_arith)
        requires
            0 <= pool <= u64::MAX,
            0 <= share <= 100,
    ;
    (pool as u128 * share / 100) as u64
}

impl LabyrinthTournamentContract {
    /// Creates tournament 1, the default championship, unless it exists; an
    /// existing one is published as active and left as it is.
    pub fn bootstrap_tournament(&mut self, now: u64) -> (result: Result<Response, TournamentError>)
        requires
            old(self).state.wf(),
        ensures
            final(self).state.wf(),
            result == bootstrap_result(old(self).state, now),
            bootstrap_effect(old(self).state, final(self).state, now),
    {
        if self.state.tournaments.len() >= 1 {
            let end_time = self.state.tournaments[0].end_time;
            self.state.active_tournament_id = Some(1);
            return Ok(Response::TournamentBootstrapped { id: 1, end_time, already_existed: true });
        }
        if now > u64::MAX - DEFAULT_DURATION_DAYS * MICROS_PER_DAY {
            return Err(TournamentError::InvalidTimes);
        }
        let end_time: u64 = now + DEFAULT_DURATION_DAYS * MICROS_PER_DAY;
        let mut maze_seed = "labyrinth_legends_".to_owned();
        let seconds = decimal_string(now / 1_000_000);
        maze_seed.append(seconds.as_str());
        let tournament = Tournament {
            id: 1,
            title: "Labyrinth Legends Championship".to_owned(),
            description: "15-day tournament - Navigate the maze faster than anyone else!".to_owned(),
            maze_seed,
            difficulty: Difficulty::Medium,
            start_time: now,
            end_time,
            status: TournamentStatus::Active,
            participant_count: 0,
            total_runs: 0,
            xp_reward_pool: DEFAULT_REWARD_POOL,
            created_at: now,
        };
        proof {
            lemma_participants_in_bounds(self.state.tournament_players@, 1);
            lemma_runs_in_bounds(self.state.runs@, 1);
        }
        self.state.tournaments.push(tournament);
        self.state.leaderboards.push(Vec::new());
        self.state.next_tournament_id = 2;
        self.state.active_tournament_id = Some(1);
        proof {
            assert(self.state.tournaments@.drop_last() =~= old(self).state.tournaments@);
            assert(self.state.leaderboards@.drop_last() =~= old(self).state.leaderboards@);
        }
        Ok(Response::TournamentBootstrapped { id: 1, end_time, already_existed: false })
    }

    /// Records the hub chain and bootstraps the default championship.
    pub fn instantiate(&mut self, argument: InitializationArgument, now: u64)
        requires
            old(self).state.wf(),
        ensures
            final(self).state.wf(),
            bootstrap_effect(
                LabyrinthState { hub_chain_id: Some(argument.hub_chain_id), ..old(self).state },
                final(self).state,
                now,
            ),
    {
        self.state.hub_chain_id = Some(argument.hub_chain_id);
        let _ = self.bootstrap_tournament(now);
    }

    /// Opens a tournament that starts now and lasts `duration_days` days, and
    /// publishes it as active.
    ///
    /// Refused with `InvalidDuration` when `duration_days` is 0, and with
    /// `InvalidTimes` when no timestamp can hold the end time.
    pub fn create_tournament(
        &mut self,
        title: String,
        description: String,
        maze_seed: String,
        difficulty: Difficulty,
        duration_days: u64,
        xp_reward_pool: u64,
        now: u64,
    ) -> (result: Result<Response, TournamentError>)
        requires
            old(self).state.wf(),
            old(self).state.next_tournament_id < u64::MAX,
        ensures
            final(self).state.wf(),
            result == create_result(old(self).state, maze_seed, duration_days, now),
            create_effect(
                old(self).state,
                final(self).state,
                title,
                description,
                maze_seed,
                difficulty,
                duration_days,
                xp_reward_pool,
                now,
            ),
    {
        if duration_days == 0 {
            return Err(TournamentError::InvalidDuration);
        }
        let end: u128 = now as u128 + duration_days as u128 * MICROS_PER_DAY as u128;
        if end > u64::MAX as u128 {
            return Err(TournamentError::InvalidTimes);
        }
        let end_time: u64 = end as u64;
        let id: u64 = self.state.next_tournament_id;
        let seed = maze_seed.clone();
        let tournament = Tournament {
            id,
            title,
            description,
            maze_seed,
            difficulty,
            start_time: now,
            end_time,
            status: TournamentStatus::Active,
            participant_count: 0,
            total_runs: 0,
            xp_reward_pool,
            created_at: now,
        };
        proof {
            lemma_participants_in_bounds(self.state.tournament_players@, id);
            lemma_runs_in_bounds(self.state.runs@, id);
        }
        self.state.tournaments.push(tournament);
        self.state.leaderboards.push(Vec::new());
        self.state.next_tournament_id = id + 1;
        self.state.active_tournament_id = Some(id);
        proof {
            assert(self.state.leaderboards@.drop_last() =~= old(self).state.leaderboards@);
        }
        Ok(Response::TournamentCreated { id, maze_seed: seed, end_time })
    }
    /// Whether the tournament can be finalized at `now`.
    pub fn check_ending(
        &self,
        tournament_id: u64,
        now: u64,
    ) -> (verdict: Result<(), TournamentError>)
        requires
            self.state.wf(),
        ensures
            verdict == ending(self.state, tournament_id, now),
    {
        if tournament_id < 1 || tournament_id > self.state.tournaments.len() as u64 {
            return Err(TournamentError::TournamentNotFound);
        }
        let slot: usize = (tournament_id - 1) as usize;
        match self.state.tournaments[slot].status {
            TournamentStatus::Ended => {
                return Err(TournamentError::AlreadyEnded);
            },
            TournamentStatus::Active => {},
        }
        let end_time: u64 = self.state.tournaments[slot].end_time;
        if now < end_time {
            return Err(TournamentError::NotYetDue { end_time });
        }
        Ok(())
    }

    /// Whether every winner's profile has room for its prize, and the first
    /// winner's for one more tournament won.
    pub(crate) fn prizes_have_room(&self, tournament_id: u64) -> (fits: bool)
        requires
            self.state.wf(),
            self.state.has_tournament(tournament_id),
        ensures
            fits == prizes_fit(self.state, tournament_id),
    {
        let count: usize = self.state.tournaments.len();
        assert(tournament_id - 1 < count);
        let slot: usize = (tournament_id - 1) as usize;
        let pool: u64 = self.state.tournaments[slot].xp_reward_pool;
        let lines: usize = self.state.leaderboards[slot].len();
        let winner_count: usize = if lines > PRIZE_PLACES {
            PRIZE_PLACES
        } else {
            lines
        };
        let ghost winners = podium(self.state.board(tournament_id));
        let mut place: usize = 0;
        while place < winner_count
            invariant
                self.state.wf(),
                self.state.has_tournament(tournament_id),
                slot == tournament_id - 1,
                pool == self.state.tournament(tournament_id).xp_reward_pool,
                winners == podium(self.state.board(tournament_id)),
                winner_count == winners.len(),
                winner_count <= PRIZE_PLACES,
                place <= winner_count,
                forall|j: int, p: int|
                    0 <= j < self.state.players@.len() && 0 <= p < place && (
                    #[trigger] self.state.players@[j]).wallet_address == (
                    #[trigger] winners[p]).wallet_address ==> {
                        &&& self.state.players@[j].total_xp + prize(pool, p) <= u64::MAX
                        &&& p == 0 ==> self.state.players@[j].tournaments_won < u32::MAX
                    },
            decreases winner_count - place,
        {
            let wallet: [u8; 20] = self.state.leaderboards[slot][place].wallet_address;
            proof {
                assert(winners[place as int] == self.state.board(tournament_id)[place as int]);
            }
            let amount: u64 = prize_amount(pool, place);
            match find_player(&self.state.players, &wallet) {
                Some(j) => {
                    proof {
                        lemma_player_index(self.state.players@, wallet, j as int);
                    }
                    if self.state.players[j].total_xp > u64::MAX - amount {
                        assert(self.state.players@[j as int].wallet_address == winners[place as int].wallet_address);
                        return false;
                    }
                    if place == 0 && self.state.players[j].tournaments_won == u32::MAX {
                        assert(self.state.players@[j as int].wallet_address == winners[place as int].wallet_address);
                        return false;
                    }
                    assert forall|k: int|
                        0 <= k < self.state.players@.len() && (#[trigger] self.state.players@[k]).wallet_address
                            == wallet implies k == j by {
                        if k < j {
                            assert(self.state.players@[k].wallet_address != self.state.players@[j as int].wallet_address);
                        }
                        if j < k {
                            assert(self.state.players@[j as int].wallet_address != self.state.players@[k].wallet_address);
                        }
                    }
                },
                None => {},
            }
            place += 1;
        }
        true
    }

    /// Records one prize of an ended tournament and credits it to its
    /// winner's profile.
    fn award(&mut self, reward: TournamentReward, first: bool)
        requires
            old(self).state.wf(),
            old(self).state.has_tournament(reward.tournament_id),
            old(self).state.tournament(reward.tournament_id).status == TournamentStatus::Ended,
            !has_reward(old(self).state.rewards@, reward.tournament_id, reward.wallet_address),
            has_player(old(self).state.players@, reward.wallet_address),
            old(self).state.players@[player_index(
                old(self).state.players@,
                reward.wallet_address,
            )].total_xp + reward.xp_amount <= u64::MAX,
            first ==> old(self).state.players@[player_index(
                old(self).state.players@,
                reward.wallet_address,
            )].tournaments_won < u32::MAX,
        ensures
            final(self).state.wf(),
            final(self).state.rewards@ == old(self).state.rewards@.push(reward),
            final(self).state.players@ == old(self).state.players@.update(
                player_index(old(self).state.players@, reward.wallet_address),
                with_prize(
                    old(self).state.players@[player_index(
                        old(self).state.players@,
                        reward.wallet_address,
                    )],
                    reward.xp_amount,
                    first,
                ),
            ),
            final(self).state == (LabyrinthState {
                rewards: final(self).state.rewards,
                players: final(self).state.players,
                ..old(self).state
            }),
    {
        let ghost before = self.state;
        self.state.rewards.push(reward);
        match find_player(&self.state.players, &reward.wallet_address) {
            Some(j) => {
                proof {
                    lemma_player_index(before.players@, reward.wallet_address, j as int);
                }
                self.state.players[j].total_xp = self.state.players[j].total_xp + reward.xp_amount;
                if first {
                    self.state.players[j].tournaments_won = self.state.players[j].tournaments_won + 1;
                }
                proof {
                    assert(self.state.players@ =~= before.players@.update(
                        j as int,
                        with_prize(before.players@[j as int], reward.xp_amount, first),
                    ));
                    lemma_award_keeps_wf(before, self.state, reward, j as int, first);
                }
            },
            None => {},
        }
    }

    /// Finalizes a tournament that has reached its end time: its status
    /// becomes `Ended`, the first [`PRIZE_PLACES`] lines of its ranking win
    /// 40, 25, 15, 12 and 8 percent of the pool, rounded down, each credited
    /// to the winner's experience at once, and the first place counts as a
    /// tournament won. What the rounding and missing ranks leave stays
    /// undistributed. Anyone may call it.
    ///
    /// Refused with `TournamentNotFound`, `AlreadyEnded`, or `NotYetDue`
    /// while `now` is before the end time.
    pub fn end_tournament(
        &mut self,
        tournament_id: u64,
        now: u64,
    ) -> (result: Result<Response, TournamentError>)
        requires
            old(self).state.wf(),
            ending(old(self).state, tournament_id, now) is Ok ==> prizes_fit(old(self).state, tournament_id),
        ensures
            final(self).state.wf(),
            result == end_result(old(self).state, tournament_id, now),
            end_effect(old(self).state, final(self).state, tournament_id, now),
    {
        let ghost before = self.state;
        match self.check_ending(tournament_id, now) {
            Err(refusal) => {
                return Err(refusal);
            },
            Ok(_) => {},
        }
        proof {
            assert forall|i: int| 0 <= i < before.rewards@.len() implies (
            #[trigger] before.rewards@[i]).tournament_id != tournament_id by {
                assert(before.tournaments@[before.rewards@[i].tournament_id - 1].status
                    == TournamentStatus::Ended);
            }
        }
        self.close(tournament_id);
        let winner_count: u32 = self.distribute(tournament_id);
        Ok(Response::TournamentEnded { id: tournament_id, winner_count })
    }

    /// Marks a tournament as ended and takes it off the active handle.
    fn close(&mut self, tournament_id: u64)
        requires
            old(self).state.wf(),
            old(self).state.has_tournament(tournament_id),
        ensures
            final(self).state.wf(),
            final(self).state.tournaments@ == old(self).state.tournaments@.update(
                tournament_id - 1,
                Tournament { status: TournamentStatus::Ended, ..old(self).state.tournament(tournament_id) },
            ),
            final(self).state.active_tournament_id == if old(self).state.active_tournament_id == Some(
                tournament_id,
            ) {
                None
            } else {
                old(self).state.active_tournament_id
            },
            final(self).state == (LabyrinthState {
                tournaments: final(self).state.tournaments,
                active_tournament_id: final(self).state.active_tournament_id,
                ..old(self).state
            }),
    {
        let ghost before = self.state;
        let count: usize = self.state.tournaments.len();
        assert(tournament_id - 1 < count);
        let slot: usize = (tournament_id - 1) as usize;
        self.state.tournaments[slot].status = TournamentStatus::Ended;
        match self.state.active_tournament_id {
            Some(active) => {
                if active == tournament_id {
                    self.state.active_tournament_id = None;
                }
            },
            None => {},
        }
        assert(self.state.tournaments@ =~= before.tournaments@.update(
            slot as int,
            Tournament { status: TournamentStatus::Ended, ..before.tournaments@[slot as int] },
        ));
        proof {
            lemma_ending_keeps_wf(before, self.state, tournament_id);
        }
    }

    /// Records the prizes of an ended tournament and credits each to its
    /// winner's profile; returns the number of winners.
    fn distribute(&mut self, tournament_id: u64) -> (winners_paid: u32)
        requires
            old(self).state.wf(),
            old(self).state.has_tournament(tournament_id),
            old(self).state.tournament(tournament_id).status == TournamentStatus::Ended,
            prizes_fit(old(self).state, tournament_id),
            forall|i: int|
                0 <= i < old(self).state.rewards@.len() ==> (
                #[trigger] old(self).state.rewards@[i]).tournament_id != tournament_id,
        ensures
            final(self).state.wf(),
            winners_paid == podium(old(self).state.board(tournament_id)).len(),
            final(self).state.rewards@ == old(self).state.rewards@ + prizes(
                tournament_id,
                podium(old(self).state.board(tournament_id)),
                old(self).state.tournament(tournament_id).xp_reward_pool,
            ),
            final(self).state.players@.len() == old(self).state.players@.len(),
            forall|j: int|
                0 <= j < old(self).state.players@.len() ==> #[trigger] final(self).state.players@[j]
                    == awarded(
                    old(self).state.players@[j],
                    podium(old(self).state.board(tournament_id)),
                    old(self).state.tournament(tournament_id).xp_reward_pool,
                ),
            final(self).state == (LabyrinthState {
                rewards: final(self).state.rewards,
                players: final(self).state.players,
                ..old(self).state
            }),
    {
        let ghost before = self.state;
        let count: usize = self.state.tournaments.len();
        assert(tournament_id - 1 < count);
        let slot: usize = (tournament_id - 1) as usize;
        let pool: u64 = self.state.tournaments[slot].xp_reward_pool;
        let lines: usize = self.state.leaderboards[slot].len();
        let winner_count: usize = if lines > PRIZE_PLACES {
            PRIZE_PLACES
        } else {
            lines
        };
        let ghost winners = podium(before.board(tournament_id));
        let mut place: usize = 0;
        proof {
            assert(prizes(tournament_id, winners.take(0), pool) =~= Seq::<TournamentReward>::empty());
            assert(self.state.rewards@ =~= before.rewards@ + prizes(tournament_id, winners.take(0), pool));
        }
        while place < winner_count
            invariant
                distribution_ready(before, tournament_id),
                self.state.wf(),
                paid_through(before, self.state, tournament_id, place as int),
                slot == tournament_id - 1,
                slot < before.leaderboards@.len(),
                pool == before.tournament(tournament_id).xp_reward_pool,
                winners == podium(before.board(tournament_id)),
                winner_count == winners.len(),
                winner_count <= before.leaderboards@[slot as int]@.len(),
                place <= winner_count,
            decreases winner_count - place,
        {
            let ghost entering = self.state;
            let wallet: [u8; 20] = self.state.leaderboards[slot][place].wallet_address;
            let rank: u32 = self.state.leaderboards[slot][place].rank;
            let amount: u64 = prize_amount(pool, place);
            let reward = TournamentReward {
                tournament_id,
                wallet_address: wallet,
                rank,
                xp_amount: amount,
                claimed: false,
            };
            proof {
                assert(winners[place as int] == before.board(tournament_id)[place as int]);
                lemma_next_prize(before, entering, tournament_id, place as int);
            }
            self.award(reward, place == 0);
            proof {
                lemma_prize_paid(before, entering, self.state, tournament_id, place as int);
            }
            place += 1;
        }
        proof {
            assert(winners.take(winner_count as int) =~= winners);
        }
        winner_count as u32
    }

    /// Marks the caller's prize of the tournament as claimed and answers with
    /// its amount. The experience was credited when the tournament ended.
    ///
    /// Refused with `NotRegistered` where the caller is bound to no wallet,
    /// with `NoReward` where the wallet holds no prize of the tournament, and
    /// with `AlreadyClaimed` where the prize was claimed before.
    pub fn claim_reward(
        &mut self,
        signer: AccountOwner,
        tournament_id: u64,
    ) -> (result: Result<Response, TournamentError>)
        requires
            old(self).state.wf(),
        ensures
            final(self).state.wf(),
            result == claim_result(old(self).state, signer, tournament_id),
            claim_effect(old(self).state, final(self).state, signer, tournament_id),
    {
        let ghost before = self.state;
        let wallet: [u8; 20] = match find_binding(&self.state.signer_to_wallet, &signer) {
            Some(i) => self.state.signer_to_wallet[i].wallet_address,
            None => {
                return Err(TournamentError::NotRegistered);
            },
        };
        let at: usize = match find_reward(&self.state.rewards, tournament_id, &wallet) {
            Some(i) => i,
            None => {
                return Err(TournamentError::NoReward);
            },
        };
        if self.state.rewards[at].claimed {
            return Err(TournamentError::AlreadyClaimed);
        }
        let xp_amount: u64 = self.state.rewards[at].xp_amount;
        self.state.rewards[at].claimed = true;
        proof {
            let claimed = TournamentReward { claimed: true, ..before.rewards@[at as int] };
            assert(self.state.rewards@ =~= before.rewards@.update(at as int, claimed));
            assert forall|i: int| 0 <= i < self.state.players@.len() implies xp_from_rewards(
                self.state.rewards@,
                (#[trigger] self.state.players@[i]).wallet_address,
            ) == xp_from_rewards(before.rewards@, before.players@[i].wallet_address) by {
                lemma_xp_from_rewards_update(
                    before.rewards@,
                    at as int,
                    claimed,
                    self.state.players@[i].wallet_address,
                );
            }
            assert(rewards_wf(self.state.rewards@, self.state.tournaments@, self.state.players@))
                by {
                let rs = before.rewards@;
                let rs2 = self.state.rewards@;
                assert forall|i: int| 0 <= i < rs2.len() implies {
                    &&& 1 <= (#[trigger] rs2[i]).tournament_id <= self.state.tournaments@.len()
                    &&& self.state.tournaments@[rs2[i].tournament_id - 1].status == TournamentStatus::Ended
                    &&& has_player(self.state.players@, rs2[i].wallet_address)
                } by {
                    assert(rs2[i].tournament_id == rs[i].tournament_id);
                    assert(rs2[i].wallet_address == rs[i].wallet_address);
                }
                assert forall|a: int, b: int| 0 <= a < b < rs2.len() implies !reward_is(
                    #[trigger] rs2[a],
                    (#[trigger] rs2[b]).tournament_id,
                    rs2[b].wallet_address,
                ) by {
                    assert(rs2[a].tournament_id == rs[a].tournament_id);
                    assert(rs2[a].wallet_address == rs[a].wallet_address);
                    assert(rs2[b].tournament_id == rs[b].tournament_id);
                    assert(rs2[b].wallet_address == rs[b].wallet_address);
                }
            }
        }
        Ok(Response::RewardClaimed { tournament_id, xp_amount })
    }
}

} // verus!
