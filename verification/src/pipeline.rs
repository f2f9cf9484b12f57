//! The submission pipeline: one run is validated, scored, recorded, and taken
//! into the aggregates of its player, its tournament and the ranking.

use vstd::prelude::*;
use crate::contract::LabyrinthTournamentContract;
use crate::leaderboard::{
    board_wf, lemma_first_exists, lemma_updated_board, lemma_updated_board_lines, lists_wallet,
    merged, position_of, rank_of, same_line, update_leaderboard, updated_board,
    LEADERBOARD_CAPACITY,
};
use crate::state::{
    boards_wf, capped, counts_wf, distinct_participants, find_participant, find_player, find_username,
    has_participant, has_player, has_username, lemma_participant_index, lemma_participants_in_push,
    lemma_names_kept, lemma_participants_in_update, lemma_participants_kept, lemma_player_index,
    lemma_players_kept,
    lemma_runs_in_bounds, lemma_runs_in_push, lemma_xp_from_runs_push, line_shows, names_wf, participant_index, participant_of, participants_in, participants_wf, player_index,
    players_wf, recent_wf, rewards_wf, row_is, runs_in, runs_wf, tournaments_wf, xp_from_rewards,
    xp_from_runs, LabyrinthState, TournamentPlayerRow, RECENT_RUNS_CAPACITY,
};
use crate::registrar::{enlisted, enroll_effect, submitting_wallet};
use crate::types::{
    AccountOwner, GameRun, Message, Player, Response, Tournament, TournamentError, TournamentPlayer,
    TournamentStatus,
};
use crate::xp::{
    lemma_xp_bounds, spec_calculate_xp, MAX_XP,
};

verus! {

/// What a player reports of one run.
#[derive(Clone, Copy, Debug)]
pub struct RunInput {
    pub tournament_id: u64,
    pub time_ms: u64,
    pub score: u64,
    pub coins: u32,
    pub deaths: u32,
    pub completed: bool,
}

/// Whether tournament `tournament_id` takes submissions at `now`: it must
/// exist, be active, and not have reached its end time.
pub open spec fn admission(
    state: LabyrinthState,
    tournament_id: u64,
    now: u64,
) -> Result<(), TournamentError> {
    if !state.has_tournament(tournament_id) {
        Err(TournamentError::TournamentNotFound)
    } else if state.tournament(tournament_id).status != TournamentStatus::Active || now
        >= state.tournament(tournament_id).end_time {
        Err(TournamentError::TournamentNotActive)
    } else {
        Ok(())
    }
}

/// The experience the run earns in its tournament.
pub open spec fn run_xp(state: LabyrinthState, run: RunInput) -> u64 {
    spec_calculate_xp(
        state.tournament(run.tournament_id).difficulty,
        run.time_ms as int,
        run.deaths as int,
        run.completed,
    ) as u64
}

/// The stored record of the run.
pub open spec fn recorded(
    id: u64,
    wallet: [u8; 20],
    username: String,
    run: RunInput,
    xp: u64,
    now: u64,
) -> GameRun {
    GameRun {
        id,
        tournament_id: run.tournament_id,
        wallet_address: wallet,
        username,
        time_ms: run.time_ms,
        score: run.score,
        coins: run.coins,
        deaths: run.deaths,
        completed: run.completed,
        xp_earned: xp,
        created_at: now,
    }
}

/// The feed with one more run id in front, cut to its capacity.
pub open spec fn fed(recent: Seq<u64>, run_id: u64) -> Seq<u64> {
    let all = seq![run_id] + recent;
    if all.len() > RECENT_RUNS_CAPACITY {
        all.take(RECENT_RUNS_CAPACITY as int)
    } else {
        all
    }
}

/// The aggregate of a player who enters a tournament at `now`.
pub open spec fn joined(wallet: [u8; 20], username: String, now: u64) -> TournamentPlayer {
    TournamentPlayer {
        wallet_address: wallet,
        username,
        best_time_ms: u64::MAX,
        best_score: 0,
        total_runs: 0,
        total_xp_earned: 0,
        last_run_at: now,
        joined_at: now,
    }
}

/// Whether the run sets a new best: it was completed in less than the
/// player's best time in the tournament.
pub open spec fn is_new_best(before: TournamentPlayer, run: RunInput) -> bool {
    run.completed && run.time_ms < before.best_time_ms
}

/// A tournament aggregate after one more run.
pub open spec fn scored(
    before: TournamentPlayer,
    run: RunInput,
    xp: u64,
    now: u64,
) -> TournamentPlayer {
    TournamentPlayer {
        best_time_ms: if is_new_best(before, run) {
            run.time_ms
        } else {
            before.best_time_ms
        },
        best_score: if run.score > before.best_score {
            run.score
        } else {
            before.best_score
        },
        total_runs: (before.total_runs + 1) as u32,
        total_xp_earned: (before.total_xp_earned + xp) as u64,
        last_run_at: now,
        ..before
    }
}

/// A profile after one more run.
pub open spec fn credited(
    before: Player,
    run: RunInput,
    xp: u64,
    new_participant: bool,
    now: u64,
) -> Player {
    Player {
        total_xp: (before.total_xp + xp) as u64,
        total_runs: (before.total_runs + 1) as u64,
        tournaments_played: if new_participant {
            (before.tournaments_played + 1) as u32
        } else {
            before.tournaments_played
        },
        best_time_ms: if run.completed {
            match before.best_time_ms {
                Some(best) => if run.time_ms < best {
                    Some(run.time_ms)
                } else {
                    Some(best)
                },
                None => Some(run.time_ms),
            }
        } else {
            before.best_time_ms
        },
        last_active: now,
        ..before
    }
}

/// A tournament after one more run.
pub open spec fn counted(before: Tournament, new_participant: bool) -> Tournament {
    Tournament {
        total_runs: (before.total_runs + 1) as u64,
        participant_count: if new_participant {
            (before.participant_count + 1) as u32
        } else {
            before.participant_count
        },
        ..before
    }
}

/// The player's aggregate in the tournament as the run finds it.
pub open spec fn participant_before(
    state: LabyrinthState,
    wallet: [u8; 20],
    username: String,
    tournament_id: u64,
    now: u64,
) -> TournamentPlayer {
    if has_participant(state.tournament_players@, tournament_id, wallet) {
        state.tournament_players@[participant_index(state.tournament_players@, tournament_id, wallet)].player
    } else {
        joined(wallet, username, now)
    }
}

/// The player's aggregate in the tournament once the run is taken in.
pub open spec fn participant_after(
    state: LabyrinthState,
    wallet: [u8; 20],
    username: String,
    run: RunInput,
    now: u64,
) -> TournamentPlayer {
    scored(participant_before(state, wallet, username, run.tournament_id, now), run, run_xp(state, run), now)
}

/// Whether every counter the run raises has room: the run id, the player's
/// experience and, for a first run in the tournament, the participant and
/// tournaments-played counts, else the player's run count there.
pub open spec fn run_fits(state: LabyrinthState, wallet: [u8; 20], run: RunInput) -> bool {
    let rows = state.tournament_players@;
    let new_participant = !has_participant(rows, run.tournament_id, wallet);
    let player = state.players@[player_index(state.players@, wallet)];
    &&& state.next_run_id < u64::MAX
    &&& has_player(state.players@, wallet) ==> player.total_xp + run_xp(state, run) <= u64::MAX
    &&& has_player(state.players@, wallet) && new_participant ==> player.tournaments_played < u32::MAX
    &&& new_participant ==> state.tournament(run.tournament_id).participant_count < u32::MAX
    &&& !new_participant ==> rows[participant_index(rows, run.tournament_id, wallet)].player.total_runs
        < u32::MAX
}

/// How an admitted run of `wallet` takes `before` to `after`: the run is
/// appended under the next id, the feed gets its id in front, the player's
/// aggregates in the tournament and over all tournaments are raised, the
/// tournament counts it, and the ranking takes the player's new aggregate in.
pub open spec fn run_effect(
    before: LabyrinthState,
    after: LabyrinthState,
    wallet: [u8; 20],
    username: String,
    run: RunInput,
    now: u64,
) -> bool {
    let tid = run.tournament_id;
    let xp = run_xp(before, run);
    let rows = before.tournament_players@;
    let new_participant = !has_participant(rows, tid, wallet);
    let row = TournamentPlayerRow {
        tournament_id: tid,
        player: participant_after(before, wallet, username, run, now),
    };
    let at = player_index(before.players@, wallet);
    &&& after.runs@ == before.runs@.push(recorded(before.next_run_id, wallet, username, run, xp, now))
    &&& after.next_run_id == before.next_run_id + 1
    &&& after.recent_runs@ == fed(before.recent_runs@, before.next_run_id)
    &&& after.tournament_players@ == if new_participant {
        rows.push(row)
    } else {
        rows.update(participant_index(rows, tid, wallet), row)
    }
    &&& after.players@ == before.players@.update(
        at,
        credited(before.players@[at], run, xp, new_participant, now),
    )
    &&& after.tournaments@ == before.tournaments@.update(
        tid - 1,
        counted(before.tournament(tid), new_participant),
    )
    &&& after.leaderboards@.len() == before.leaderboards@.len()
    &&& forall|k: int|
        0 <= k < before.leaderboards@.len() && k != tid - 1 ==> #[trigger] after.leaderboards@[k]
            == before.leaderboards@[k]
    &&& after.board(tid) == updated_board(before.board(tid), row.player)
    &&& after.hub_chain_id == before.hub_chain_id
    &&& after.next_tournament_id == before.next_tournament_id
    &&& after.signer_to_wallet == before.signer_to_wallet
    &&& after.active_tournament_id == before.active_tournament_id
    &&& after.username_to_wallet == before.username_to_wallet
    &&& after.rewards == before.rewards
}

/// The player's best time in the tournament so far, `u64::MAX` without one.
pub open spec fn best_time_in(
    rows: Seq<TournamentPlayerRow>,
    tournament_id: u64,
    wallet: [u8; 20],
) -> u64 {
    if has_participant(rows, tournament_id, wallet) {
        rows[participant_index(rows, tournament_id, wallet)].player.best_time_ms
    } else {
        u64::MAX
    }
}

/// What an admitted run answers: its id, the experience earned, whether it set
/// a new best, and the rank the player then holds (0 below the capacity).
pub open spec fn run_response(
    before: LabyrinthState,
    after: LabyrinthState,
    wallet: [u8; 20],
    run: RunInput,
) -> Response {
    Response::RunSubmitted {
        run_id: before.next_run_id,
        xp_earned: run_xp(before, run),
        new_best: run.completed && run.time_ms < best_time_in(
            before.tournament_players@,
            run.tournament_id,
            wallet,
        ),
        rank: rank_of(after.board(run.tournament_id), wallet),
    }
}

/// Whether the counters have room for the submission of `signer`, should it
/// be admitted.
pub open spec fn submission_fits(
    state: LabyrinthState,
    signer: AccountOwner,
    run: RunInput,
    now: u64,
) -> bool {
    match submitting_wallet(state, signer) {
        Some(wallet) => admission(state, run.tournament_id, now) is Ok ==> run_fits(state, wallet, run),
        None => true,
    }
}

/// What a submission answers: `NotRegistered` where the caller acts for no
/// wallet, or for one without a profile whose default username belongs to
/// another wallet; the tournament's refusal where it takes no submissions;
/// else the run's outcome.
pub open spec fn submit_result(
    before: LabyrinthState,
    after: LabyrinthState,
    signer: AccountOwner,
    run: RunInput,
    now: u64,
) -> Result<Response, TournamentError> {
    match submitting_wallet(before, signer) {
        None => Err(TournamentError::NotRegistered),
        Some(wallet) => match admission(before, run.tournament_id, now) {
            Err(refusal) => Err(refusal),
            Ok(_) => Ok(run_response(before, after, wallet, run)),
        },
    }
}

/// How a submission takes `before` to `after`. A refusal changes nothing.
/// Otherwise the wallet is enrolled, which leads to a state `enrolled`, and
/// the run is taken in from there under the username of the wallet's profile.
pub open spec fn submit_effect(
    before: LabyrinthState,
    enrolled: LabyrinthState,
    after: LabyrinthState,
    signer: AccountOwner,
    run: RunInput,
    now: u64,
) -> bool {
    match submitting_wallet(before, signer) {
        None => after == before,
        Some(wallet) => if admission(before, run.tournament_id, now) is Err {
            after == before
        } else {
            &&& enroll_effect(before, enrolled, signer, wallet, now)
            &&& has_player(enrolled.players@, wallet)
            &&& run_effect(
                enrolled,
                after,
                wallet,
                enrolled.players@[player_index(enrolled.players@, wallet)].username,
                run,
                now,
            )
        },
    }
}

/// Whether a forwarded run is admitted: its tournament takes submissions,
/// and its wallet has a profile or the forwarded username is free.
pub open spec fn forwarded_admission(
    state: LabyrinthState,
    wallet: [u8; 20],
    username: Seq<char>,
    tournament_id: u64,
    now: u64,
) -> bool {
    &&& admission(state, tournament_id, now) is Ok
    &&& has_player(state.players@, wallet) || !has_username(state.username_to_wallet@, username)
}

/// Whether the counters have room for a forwarded run, should it be admitted.
pub open spec fn forwarded_fits(
    state: LabyrinthState,
    wallet: [u8; 20],
    username: Seq<char>,
    run: RunInput,
    now: u64,
) -> bool {
    forwarded_admission(state, wallet, username, run.tournament_id, now) ==> run_fits(state, wallet, run)
}

/// How a forwarded run that fits takes `before` to `after`. One that is not
/// admitted changes nothing. Otherwise a wallet without a profile gets a
/// fresh one under the forwarded username, which leads to a state
/// `enrolled`, and the run is taken in from there.
pub open spec fn forwarded_effect(
    before: LabyrinthState,
    enrolled: LabyrinthState,
    after: LabyrinthState,
    wallet: [u8; 20],
    username: String,
    run: RunInput,
    now: u64,
) -> bool {
    if !forwarded_admission(before, wallet, username@, run.tournament_id, now) {
        after == before
    } else {
        &&& if has_player(before.players@, wallet) {
            enrolled == before
        } else {
            enlisted(before, enrolled, wallet, username@, now) && enrolled.signer_to_wallet
                == before.signer_to_wallet
        }
        &&& run_effect(enrolled, after, wallet, username, run, now)
    }
}

/// How a forwarded run takes `before` to `after`: as an admitted run that
/// fits does; a run that is not admitted, or for which a counter has no room,
/// changes nothing.
pub open spec fn message_effect(
    before: LabyrinthState,
    after: LabyrinthState,
    message: Message,
    now: u64,
) -> bool {
    if forwarded_fits(
        before,
        message_wallet(message),
        message_username(message)@,
        message_run(message),
        now,
    ) {
        exists|enrolled: LabyrinthState| #[trigger]
            forwarded_effect(
                before,
                enrolled,
                after,
                message_wallet(message),
                message_username(message),
                message_run(message),
                now,
            )
    } else {
        after == before
    }
}

/// An admitted run that fits, and the state it leads to.
pub open spec fn run_step(
    before: LabyrinthState,
    after: LabyrinthState,
    wallet: [u8; 20],
    username: String,
    run: RunInput,
    now: u64,
) -> bool {
    &&& before.wf()
    &&& admission(before, run.tournament_id, now) is Ok
    &&& has_player(before.players@, wallet)
    &&& run_fits(before, wallet, run)
    &&& run_effect(before, after, wallet, username, run, now)
}

/// After a run the runs, the participant rows and the counts of the
/// tournaments are as they must be.
proof fn lemma_run_keeps_rows(
    before: LabyrinthState,
    after: LabyrinthState,
    wallet: [u8; 20],
    username: String,
    run: RunInput,
    now: u64,
)
    requires
        run_step(before, after, wallet, username, run, now),
    ensures
        runs_wf(after.runs@, after.next_run_id, after.tournaments@.len(), after.players@),
        participants_wf(after.tournament_players@, after.tournaments@.len(), after.players@),
        counts_wf(after.tournaments@, after.tournament_players@, after.runs@),
{
    let tid = run.tournament_id;
    let xp = run_xp(before, run);
    lemma_xp_bounds(
        before.tournament(tid).difficulty,
        run.time_ms as int,
        run.deaths as int,
        run.completed,
    );
    let ps = before.players@;
    let qs = after.players@;
    let at = player_index(ps, wallet);
    assert(0 <= at < ps.len() && ps[at].wallet_address == wallet);
    lemma_players_kept(ps, qs);
    let rows = before.tournament_players@;
    let rows2 = after.tournament_players@;
    let new_participant = !has_participant(rows, tid, wallet);
    let runs = before.runs@;
    let runs2 = after.runs@;
    let record = recorded(before.next_run_id, wallet, username, run, xp, now);
    assert(runs_wf(runs2, after.next_run_id, after.tournaments@.len(), qs)) by {
        assert forall|i: int| 0 <= i < runs2.len() implies {
            &&& (#[trigger] runs2[i]).id == i + 1
            &&& 1 <= runs2[i].tournament_id <= after.tournaments@.len()
            &&& has_player(qs, runs2[i].wallet_address)
            &&& runs2[i].xp_earned <= MAX_XP
        } by {
            if i < runs.len() {
                assert(runs2[i] == runs[i]);
                assert(has_player(ps, runs[i].wallet_address));
            } else {
                assert(runs2[i] == record);
            }
        }
    }
    if !new_participant {
        let ri = participant_index(rows, tid, wallet);
        assert(0 <= ri < rows.len() && row_is(rows[ri], tid, wallet));
    }
    assert(participants_wf(rows2, after.tournaments@.len(), qs)) by {
        assert forall|i: int| 0 <= i < rows2.len() implies {
            &&& 1 <= (#[trigger] rows2[i]).tournament_id <= after.tournaments@.len()
            &&& has_player(qs, rows2[i].player.wallet_address)
            &&& rows2[i].player.total_xp_earned <= MAX_XP * rows2[i].player.total_runs
        } by {
            if i < rows.len() && (new_participant || i != participant_index(rows, tid, wallet)) {
                assert(rows2[i] == rows[i]);
                assert(has_player(ps, rows[i].player.wallet_address));
            } else {
                assert(has_player(ps, wallet));
            }
        }
        assert forall|i: int, j: int| 0 <= i < j < rows2.len() implies !row_is(
            #[trigger] rows2[i],
            (#[trigger] rows2[j]).tournament_id,
            rows2[j].player.wallet_address,
        ) by {
            if new_participant {
                if j == rows.len() {
                    assert(rows2[i] == rows[i]);
                    assert(!row_is(rows[i], tid, wallet));
                } else {
                    assert(rows2[i] == rows[i] && rows2[j] == rows[j]);
                }
            } else {
                assert(rows2[i].tournament_id == rows[i].tournament_id);
                assert(rows2[i].player.wallet_address == rows[i].player.wallet_address);
                assert(rows2[j].tournament_id == rows[j].tournament_id);
                assert(rows2[j].player.wallet_address == rows[j].player.wallet_address);
            }
        }
    }
    assert(counts_wf(after.tournaments@, rows2, runs2)) by {
        assert forall|i: int| 0 <= i < after.tournaments@.len() implies {
            &&& (#[trigger] after.tournaments@[i]).participant_count == participants_in(
                rows2,
                (i + 1) as u64,
            )
            &&& after.tournaments@[i].total_runs == runs_in(runs2, (i + 1) as u64)
        } by {
            let t = (i + 1) as u64;
            lemma_runs_in_push(runs, record, t);
            lemma_runs_in_bounds(runs, t);
            let row = TournamentPlayerRow {
                tournament_id: tid,
                player: participant_after(before, wallet, username, run, now),
            };
            if new_participant {
                lemma_participants_in_push(rows, row, t);
            } else {
                lemma_participants_in_update(rows, participant_index(rows, tid, wallet), row, t);
            }
            assert(before.tournaments@[i].participant_count == participants_in(rows, t));
        }
    }
}

/// What a run changes in the participant rows: the row of the player in the
/// tournament becomes the player's new aggregate, and every other row stays.
proof fn lemma_run_row_changes(
    before: LabyrinthState,
    after: LabyrinthState,
    wallet: [u8; 20],
    username: String,
    run: RunInput,
    now: u64,
)
    requires
        run_step(before, after, wallet, username, run, now),
    ensures
        distinct_participants(after.tournament_players@),
        before.tournament_players@.len() <= after.tournament_players@.len(),
        has_participant(after.tournament_players@, run.tournament_id, wallet),
        participant_of(after.tournament_players@, run.tournament_id, wallet) == participant_after(
            before,
            wallet,
            username,
            run,
            now,
        ),
        participant_after(before, wallet, username, run, now).wallet_address == wallet,
        forall|i: int|
            0 <= i < after.tournament_players@.len() && !row_is(
                #[trigger] after.tournament_players@[i],
                run.tournament_id,
                wallet,
            ) ==> i < before.tournament_players@.len() && after.tournament_players@[i]
                == before.tournament_players@[i],
        forall|t: u64, w: [u8; 20]| #[trigger]
            has_participant(before.tournament_players@, t, w) ==> has_participant(
                after.tournament_players@,
                t,
                w,
            ),
        forall|t: u64, w: [u8; 20]|
            #[trigger] has_participant(before.tournament_players@, t, w) && !(t == run.tournament_id
                && w == wallet) ==> participant_of(after.tournament_players@, t, w) == participant_of(
                before.tournament_players@,
                t,
                w,
            ),
{
    let tid = run.tournament_id;
    let rows = before.tournament_players@;
    let rows2 = after.tournament_players@;
    let new_participant = !has_participant(rows, tid, wallet);
    let snapshot = participant_after(before, wallet, username, run, now);
    lemma_run_keeps_rows(before, after, wallet, username, run, now);
    lemma_participants_kept(rows, rows2);
    if new_participant {
        assert(row_is(rows2[rows.len() as int], tid, wallet));
        lemma_participant_index(rows2, tid, wallet, rows.len() as int);
    } else {
        let ri = participant_index(rows, tid, wallet);
        assert(0 <= ri < rows.len() && row_is(rows[ri], tid, wallet));
        assert(row_is(rows2[ri], tid, wallet));
        lemma_participant_index(rows2, tid, wallet, ri);
    }
    assert forall|i: int|
        0 <= i < rows2.len() && !row_is(#[trigger] rows2[i], tid, wallet) implies i < rows.len()
        && rows2[i] == rows[i] by {
        if !new_participant {
            let ri = participant_index(rows, tid, wallet);
            assert(i != ri);
        }
    }
    assert forall|t: u64, w: [u8; 20]|
        #[trigger] has_participant(rows, t, w) && !(t == tid && w == wallet) implies participant_of(
        rows2,
        t,
        w,
    ) == participant_of(rows, t, w) by {
        let i = participant_index(rows, t, w);
        assert(0 <= i < rows.len() && row_is(rows[i], t, w));
        assert(rows2[i].tournament_id == rows[i].tournament_id);
        assert(rows2[i].player.wallet_address == rows[i].player.wallet_address);
        assert(!row_is(rows2[i], tid, wallet));
        lemma_participant_index(rows2, t, w, i);
    }
}

/// After a run every ranking is well-formed and lists participants only.
proof fn lemma_run_board_shape(
    before: LabyrinthState,
    after: LabyrinthState,
    wallet: [u8; 20],
    username: String,
    run: RunInput,
    now: u64,
)
    requires
        run_step(before, after, wallet, username, run, now),
    ensures
        after.leaderboards@.len() == after.tournaments@.len(),
        forall|k: int| 0 <= k < after.leaderboards@.len() ==> board_wf((#[trigger] after.leaderboards@[k])@),
        forall|k: int, w: [u8; 20]|
            0 <= k < after.leaderboards@.len() && #[trigger] lists_wallet(after.leaderboards@[k]@, w)
                ==> has_participant(after.tournament_players@, (k + 1) as u64, w),
{
    let tid = run.tournament_id;
    let rows = before.tournament_players@;
    let rows2 = after.tournament_players@;
    let snapshot = participant_after(before, wallet, username, run, now);
    lemma_run_row_changes(before, after, wallet, username, run, now);
    assert(board_wf(before.leaderboards@[tid - 1]@));
    lemma_updated_board(before.board(tid), snapshot);
    let boards2 = after.leaderboards@;
    assert forall|k: int| 0 <= k < boards2.len() implies board_wf((#[trigger] boards2[k])@) by {
        if k != tid - 1 {
            assert(boards2[k] == before.leaderboards@[k]);
        }
    }
    assert forall|k: int, w: [u8; 20]|
        0 <= k < boards2.len() && #[trigger] lists_wallet(boards2[k]@, w) implies has_participant(
        rows2,
        (k + 1) as u64,
        w,
    ) by {
        if k != tid - 1 {
            assert(boards2[k] == before.leaderboards@[k]);
            assert(lists_wallet(before.leaderboards@[k]@, w));
            assert(has_participant(rows, (k + 1) as u64, w));
        } else {
            if w != wallet {
                assert(lists_wallet(before.leaderboards@[k]@, w));
                assert(has_participant(rows, (k + 1) as u64, w));
            }
        }
    }
}

/// After a run every line of a ranking carries the values of its
/// participant's aggregate.
proof fn lemma_run_board_lines(
    before: LabyrinthState,
    after: LabyrinthState,
    wallet: [u8; 20],
    username: String,
    run: RunInput,
    now: u64,
)
    requires
        run_step(before, after, wallet, username, run, now),
    ensures
        forall|k: int, e: int|
            0 <= k < after.leaderboards@.len() && 0 <= e < after.leaderboards@[k]@.len() ==> line_shows(
                #[trigger] after.leaderboards@[k]@[e],
                participant_of(
                    after.tournament_players@,
                    (k + 1) as u64,
                    after.leaderboards@[k]@[e].wallet_address,
                ),
            ),
{
    let tid = run.tournament_id;
    let rows = before.tournament_players@;
    let rows2 = after.tournament_players@;
    let boards = before.leaderboards@;
    let boards2 = after.leaderboards@;
    let board = before.board(tid);
    let snapshot = participant_after(before, wallet, username, run, now);
    let entering = participant_before(before, wallet, username, tid, now);
    lemma_run_row_changes(before, after, wallet, username, run, now);
    assert(board_wf(boards[tid - 1]@));
    lemma_updated_board_lines(board, snapshot);
    assert forall|k: int, e: int| 0 <= k < boards2.len() && 0 <= e < boards2[k]@.len() implies line_shows(
        #[trigger] boards2[k]@[e],
        participant_of(rows2, (k + 1) as u64, boards2[k]@[e].wallet_address),
    ) by {
        let line = boards2[k]@[e];
        let t = (k + 1) as u64;
        if k != tid - 1 {
            assert(boards2[k] == boards[k]);
            assert(lists_wallet(boards[k]@, line.wallet_address));
            assert(has_participant(rows, t, line.wallet_address));
            assert(line_shows(boards[k]@[e], participant_of(rows, t, boards[k]@[e].wallet_address)));
        } else {
            assert(line == updated_board(board, snapshot)[e]);
            if line.wallet_address == wallet {
                if lists_wallet(board, wallet) {
                    let k0 = choose|k0: int| 0 <= k0 < board.len() && (#[trigger] board[k0]).wallet_address == wallet;
                    lemma_first_exists(board, wallet, k0);
                    let pos = position_of(board, wallet);
                    assert(lists_wallet(boards[tid - 1]@, wallet));
                    assert(has_participant(rows, tid, wallet));
                    assert(line_shows(
                        boards[tid - 1]@[pos],
                        participant_of(rows, tid, boards[tid - 1]@[pos].wallet_address),
                    ));
                    assert(entering == participant_of(rows, tid, wallet));
                }
            } else {
                let k0 = choose|k0: int| 0 <= k0 < board.len() && same_line(line, #[trigger] board[k0]);
                assert(board[k0].wallet_address == line.wallet_address);
                assert(lists_wallet(boards[tid - 1]@, line.wallet_address));
                assert(has_participant(rows, tid, line.wallet_address));
                assert(line_shows(
                    boards[tid - 1]@[k0],
                    participant_of(rows, tid, boards[tid - 1]@[k0].wallet_address),
                ));
            }
        }
    }
}

/// After a run every ranking has one line for each participant up to the
/// capacity, and lists every participant while it is below the capacity.
proof fn lemma_run_board_sizes(
    before: LabyrinthState,
    after: LabyrinthState,
    wallet: [u8; 20],
    username: String,
    run: RunInput,
    now: u64,
)
    requires
        run_step(before, after, wallet, username, run, now),
    ensures
        forall|k: int|
            0 <= k < after.leaderboards@.len() ==> (#[trigger] after.leaderboards@[k])@.len() == capped(
                participants_in(after.tournament_players@, (k + 1) as u64),
            ),
        forall|k: int, i: int|
            0 <= k < after.leaderboards@.len() && 0 <= i < after.tournament_players@.len()
                && after.leaderboards@[k]@.len() < LEADERBOARD_CAPACITY && (
            #[trigger] after.tournament_players@[i]).tournament_id == k + 1 ==> lists_wallet(
                (#[trigger] after.leaderboards@[k])@,
                after.tournament_players@[i].player.wallet_address,
            ),
{
    let tid = run.tournament_id;
    let rows = before.tournament_players@;
    let rows2 = after.tournament_players@;
    let boards = before.leaderboards@;
    let boards2 = after.leaderboards@;
    let board = before.board(tid);
    let snapshot = participant_after(before, wallet, username, run, now);
    let new_participant = !has_participant(rows, tid, wallet);
    let row = TournamentPlayerRow { tournament_id: tid, player: snapshot };
    lemma_run_row_changes(before, after, wallet, username, run, now);
    assert(board_wf(boards[tid - 1]@));
    lemma_updated_board_lines(board, snapshot);
    if lists_wallet(board, wallet) {
        assert(lists_wallet(boards[tid - 1]@, wallet));
        assert(has_participant(rows, tid, wallet));
    }
    if !new_participant && !lists_wallet(board, wallet) {
        let ri = participant_index(rows, tid, wallet);
        assert(0 <= ri < rows.len() && row_is(rows[ri], tid, wallet));
        if board.len() < LEADERBOARD_CAPACITY {
            assert(lists_wallet(boards[tid - 1]@, rows[ri].player.wallet_address));
        }
    }
    assert forall|k: int| 0 <= k < boards2.len() implies (#[trigger] boards2[k])@.len() == capped(
        participants_in(rows2, (k + 1) as u64),
    ) by {
        let t = (k + 1) as u64;
        if new_participant {
            lemma_participants_in_push(rows, row, t);
        } else {
            lemma_participants_in_update(rows, participant_index(rows, tid, wallet), row, t);
            let ri = participant_index(rows, tid, wallet);
            assert(0 <= ri < rows.len() && row_is(rows[ri], tid, wallet));
        }
        assert(boards[k]@.len() == capped(participants_in(rows, t)));
        if k != tid - 1 {
            assert(boards2[k] == boards[k]);
        }
    }
    assert forall|k: int, i: int|
        0 <= k < boards2.len() && 0 <= i < rows2.len() && boards2[k]@.len() < LEADERBOARD_CAPACITY && (
        #[trigger] rows2[i]).tournament_id == k + 1 implies lists_wallet(
        (#[trigger] boards2[k])@,
        rows2[i].player.wallet_address,
    ) by {
        if k != tid - 1 {
            assert(boards2[k] == boards[k]);
            assert(!row_is(rows2[i], tid, wallet));
            assert(rows2[i] == rows[i]);
            assert(lists_wallet(boards[k]@, rows[i].player.wallet_address));
        } else {
            let merged_board = merged(board, snapshot);
            assert(boards2[k]@ == updated_board(board, snapshot));
            assert(merged_board.len() < LEADERBOARD_CAPACITY);
            assert(boards[k]@.len() < LEADERBOARD_CAPACITY);
            if rows2[i].player.wallet_address != wallet {
                assert(!row_is(rows2[i], tid, wallet));
                assert(rows2[i] == rows[i]);
                assert(lists_wallet(boards[k]@, rows[i].player.wallet_address));
                assert(lists_wallet(board, rows[i].player.wallet_address));
            }
        }
    }
}

/// After a run the rankings are as they must be.
proof fn lemma_run_keeps_boards(
    before: LabyrinthState,
    after: LabyrinthState,
    wallet: [u8; 20],
    username: String,
    run: RunInput,
    now: u64,
)
    requires
        run_step(before, after, wallet, username, run, now),
    ensures
        boards_wf(after.leaderboards@, after.tournaments@.len(), after.tournament_players@),
{
    lemma_run_board_shape(before, after, wallet, username, run, now);
    lemma_run_board_lines(before, after, wallet, username, run, now);
    lemma_run_board_sizes(before, after, wallet, username, run, now);
}

/// After a run the profiles, the prizes and the username index are as they
/// must be.
proof fn lemma_run_keeps_players(
    before: LabyrinthState,
    after: LabyrinthState,
    wallet: [u8; 20],
    username: String,
    run: RunInput,
    now: u64,
)
    requires
        run_step(before, after, wallet, username, run, now),
    ensures
        players_wf(after.players@, after.runs@, after.rewards@),
        rewards_wf(after.rewards@, after.tournaments@, after.players@),
        names_wf(after.username_to_wallet@, after.players@),
{
    let tid = run.tournament_id;
    let xp = run_xp(before, run);
    let ps = before.players@;
    let qs = after.players@;
    let at = player_index(ps, wallet);
    assert(0 <= at < ps.len() && ps[at].wallet_address == wallet);
    lemma_players_kept(ps, qs);
    let runs = before.runs@;
    let runs2 = after.runs@;
    let record = recorded(before.next_run_id, wallet, username, run, xp, now);
    assert(players_wf(qs, runs2, after.rewards@)) by {
        assert forall|i: int| 0 <= i < qs.len() implies {
            &&& (#[trigger] qs[i]).total_xp == xp_from_runs(runs2, qs[i].wallet_address) + xp_from_rewards(
                after.rewards@,
                qs[i].wallet_address,
            )
            &&& qs[i].total_runs <= runs2.len()
        } by {
            lemma_xp_from_runs_push(runs, record, qs[i].wallet_address);
            if i != at {
                assert(qs[i] == ps[i]);
                if i < at {
                    assert(ps[i].wallet_address != ps[at].wallet_address);
                } else {
                    assert(ps[at].wallet_address != ps[i].wallet_address);
                }
            }
        }
    }
    assert(rewards_wf(after.rewards@, after.tournaments@, qs)) by {
        assert forall|i: int| 0 <= i < after.rewards@.len() implies {
            &&& 1 <= (#[trigger] after.rewards@[i]).tournament_id <= after.tournaments@.len()
            &&& after.tournaments@[after.rewards@[i].tournament_id - 1].status == TournamentStatus::Ended
            &&& has_player(qs, after.rewards@[i].wallet_address)
        } by {
            let r = before.rewards@[i];
            assert(has_player(ps, r.wallet_address));
            assert(before.tournaments@[r.tournament_id - 1].status == TournamentStatus::Ended);
        }
    }
    lemma_names_kept(before.username_to_wallet@, ps, qs);
}

/// An admitted run that fits leaves a well-formed store well-formed.
pub proof fn lemma_run_keeps_wf(
    before: LabyrinthState,
    after: LabyrinthState,
    wallet: [u8; 20],
    username: String,
    run: RunInput,
    now: u64,
)
    requires
        run_step(before, after, wallet, username, run, now),
    ensures
        after.wf(),
{
    lemma_run_keeps_rows(before, after, wallet, username, run, now);
    lemma_run_keeps_boards(before, after, wallet, username, run, now);
    lemma_run_keeps_players(before, after, wallet, username, run, now);
    assert(tournaments_wf(after.tournaments@, after.next_tournament_id));
    let recent = before.recent_runs@;
    let all = seq![before.next_run_id] + recent;
    assert(recent_wf(after.recent_runs@, after.runs@.len())) by {
        assert forall|i: int| 0 <= i < after.recent_runs@.len() implies #[trigger] after.recent_runs@[i]
            == after.runs@.len() - i by {
            assert(after.recent_runs@[i] == all[i]);
            if i > 0 {
                assert(all[i] == recent[i - 1]);
            }
        }
    }
}

impl LabyrinthTournamentContract {
    /// Whether tournament `tournament_id` takes submissions at `now`.
    pub fn check_admission(
        &self,
        tournament_id: u64,
        now: u64,
    ) -> (verdict: Result<(), TournamentError>)
        requires
            self.state.wf(),
        ensures
            verdict == admission(self.state, tournament_id, now),
    {
        if tournament_id < 1 || tournament_id > self.state.tournaments.len() as u64 {
            return Err(TournamentError::TournamentNotFound);
        }
        let slot: usize = (tournament_id - 1) as usize;
        match self.state.tournaments[slot].status {
            TournamentStatus::Active => {},
            TournamentStatus::Ended => {
                return Err(TournamentError::TournamentNotActive);
            },
        }
        if now >= self.state.tournaments[slot].end_time {
            return Err(TournamentError::TournamentNotActive);
        }
        Ok(())
    }

    /// Whether every counter that a run of `wallet` raises has room.
    pub(crate) fn run_has_room(&self, wallet: &[u8; 20], run: RunInput) -> (fits: bool)
        requires
            self.state.wf(),
            self.state.has_tournament(run.tournament_id),
        ensures
            fits == run_fits(self.state, *wallet, run),
    {
        if self.state.next_run_id == u64::MAX {
            return false;
        }
        let count: usize = self.state.tournaments.len();
        assert(run.tournament_id - 1 < count);
        let slot: usize = (run.tournament_id - 1) as usize;
        let xp: u64 = self.state.tournaments[slot].difficulty.calculate_xp(
            run.time_ms,
            run.deaths,
            run.completed,
        );
        let participant = find_participant(&self.state.tournament_players, run.tournament_id, wallet);
        match find_player(&self.state.players, wallet) {
            Some(j) => {
                if self.state.players[j].total_xp > u64::MAX - xp {
                    return false;
                }
                if participant.is_none() && self.state.players[j].tournaments_played == u32::MAX {
                    return false;
                }
            },
            None => {},
        }
        match participant {
            Some(i) => self.state.tournament_players[i].player.total_runs < u32::MAX,
            None => self.state.tournaments[slot].participant_count < u32::MAX,
        }
    }

    /// Whether the counters have room for the submission of `signer`, should
    /// it be admitted.
    pub fn submission_has_room(
        &self,
        signer: &AccountOwner,
        run: RunInput,
        now: u64,
    ) -> (fits: bool)
        requires
            self.state.wf(),
        ensures
            fits == submission_fits(self.state, *signer, run, now),
    {
        match self.resolve_submitter(signer) {
            Some(wallet) => {
                if self.check_admission(run.tournament_id, now).is_err() {
                    return true;
                }
                self.run_has_room(&wallet, run)
            },
            None => true,
        }
    }

    /// Whether a forwarded run is admitted.
    pub fn check_forwarded(
        &self,
        wallet: &[u8; 20],
        username: &String,
        tournament_id: u64,
        now: u64,
    ) -> (admitted: bool)
        requires
            self.state.wf(),
        ensures
            admitted == forwarded_admission(self.state, *wallet, username@, tournament_id, now),
    {
        if self.check_admission(tournament_id, now).is_err() {
            return false;
        }
        find_player(&self.state.players, wallet).is_some() || find_username(
            &self.state.username_to_wallet,
            username,
        ).is_none()
    }

    /// Whether the counters have room for a forwarded run, should it be
    /// admitted.
    pub fn forwarded_has_room(&self, message: &Message, now: u64) -> (fits: bool)
        requires
            self.state.wf(),
        ensures
            fits == forwarded_fits(
                self.state,
                message_wallet(*message),
                message_username(*message)@,
                message_run(*message),
                now,
            ),
    {
        match message {
            Message::ApplyRun {
                wallet_address,
                username,
                tournament_id,
                time_ms,
                score,
                coins,
                deaths,
                completed,
            } => {
                let run = RunInput {
                    tournament_id: *tournament_id,
                    time_ms: *time_ms,
                    score: *score,
                    coins: *coins,
                    deaths: *deaths,
                    completed: *completed,
                };
                if !self.check_forwarded(wallet_address, username, run.tournament_id, now) {
                    return true;
                }
                self.run_has_room(wallet_address, run)
            },
        }
    }

    /// Takes an admitted run of a player into the store and answers with the
    /// run's id, the experience earned, whether it set a new best, and the
    /// player's rank.
    pub(crate) fn apply_run(
        &mut self,
        wallet: [u8; 20],
        username: String,
        run: RunInput,
        now: u64,
    ) -> (response: Response)
        requires
            old(self).state.wf(),
            admission(old(self).state, run.tournament_id, now) is Ok,
            has_player(old(self).state.players@, wallet),
            run_fits(old(self).state, wallet, run),
        ensures
            final(self).state.wf(),
            run_effect(old(self).state, final(self).state, wallet, username, run, now),
            response == run_response(old(self).state, final(self).state, wallet, run),
    {
        let ghost before = self.state;
        let tid: u64 = run.tournament_id;
        let count: usize = self.state.tournaments.len();
        assert(tid - 1 < count);
        let slot: usize = (tid - 1) as usize;
        let xp: u64 = self.state.tournaments[slot].difficulty.calculate_xp(
            run.time_ms,
            run.deaths,
            run.completed,
        );
        let run_id: u64 = self.state.next_run_id;
        self.state.next_run_id = run_id + 1;
        self.state.runs.push(
            GameRun {
                id: run_id,
                tournament_id: tid,
                wallet_address: wallet,
                username: username.clone(),
                time_ms: run.time_ms,
                score: run.score,
                coins: run.coins,
                deaths: run.deaths,
                completed: run.completed,
                xp_earned: xp,
                created_at: now,
            },
        );
        self.state.recent_runs.insert(0, run_id);
        self.state.recent_runs.truncate(RECENT_RUNS_CAPACITY);
        assert(self.state.recent_runs@ =~= fed(before.recent_runs@, run_id));

        let found = find_participant(&self.state.tournament_players, tid, &wallet);
        let new_participant: bool = found.is_none();
        let at: usize = match found {
            Some(i) => i,
            None => {
                self.state.tournament_players.push(
                    TournamentPlayerRow {
                        tournament_id: tid,
                        player: TournamentPlayer {
                            wallet_address: wallet,
                            username: username.clone(),
                            best_time_ms: u64::MAX,
                            best_score: 0,
                            total_runs: 0,
                            total_xp_earned: 0,
                            last_run_at: now,
                            joined_at: now,
                        },
                    },
                );
                self.state.tournament_players.len() - 1
            },
        };
        let ghost entering = participant_before(before, wallet, username, tid, now);
        assert(self.state.tournament_players@[at as int].player == entering);
        let new_best: bool = run.completed && run.time_ms < self.state.tournament_players[at].player.best_time_ms;
        if new_best {
            self.state.tournament_players[at].player.best_time_ms = run.time_ms;
        }
        if run.score > self.state.tournament_players[at].player.best_score {
            self.state.tournament_players[at].player.best_score = run.score;
        }
        self.state.tournament_players[at].player.total_runs = self.state.tournament_players[at].player.total_runs
            + 1;
        self.state.tournament_players[at].player.total_xp_earned =
            self.state.tournament_players[at].player.total_xp_earned + xp;
        self.state.tournament_players[at].player.last_run_at = now;
        let snapshot = self.state.tournament_players[at].player.clone();
        assert(snapshot == scored(entering, run, xp, now));
        proof {
            let row = TournamentPlayerRow { tournament_id: tid, player: snapshot };
            let rows = before.tournament_players@;
            if new_participant {
                assert(self.state.tournament_players@ =~= rows.push(row));
            } else {
                assert(self.state.tournament_players@ =~= rows.update(at as int, row));
            }
        }

        let slot_of_player = find_player(&self.state.players, &wallet);
        let pi: usize = slot_of_player.unwrap();
        proof {
            lemma_runs_in_bounds(before.runs@, tid);
            lemma_player_index(before.players@, wallet, pi as int);
            assert(before.tournaments@[slot as int].total_runs == runs_in(before.runs@, tid));
            assert(before.players@[pi as int].total_runs <= before.runs@.len());
        }
        self.state.players[pi].total_xp = self.state.players[pi].total_xp + xp;
        self.state.players[pi].total_runs = self.state.players[pi].total_runs + 1;
        self.state.players[pi].last_active = now;
        if new_participant {
            self.state.players[pi].tournaments_played = self.state.players[pi].tournaments_played + 1;
        }
        if run.completed {
            match self.state.players[pi].best_time_ms {
                Some(best) => {
                    if run.time_ms < best {
                        self.state.players[pi].best_time_ms = Some(run.time_ms);
                    }
                },
                None => {
                    self.state.players[pi].best_time_ms = Some(run.time_ms);
                },
            }
        }
        assert(self.state.players@ =~= before.players@.update(
            pi as int,
            credited(before.players@[pi as int], run, xp, new_participant, now),
        ));

        self.state.tournaments[slot].total_runs = self.state.tournaments[slot].total_runs + 1;
        if new_participant {
            self.state.tournaments[slot].participant_count = self.state.tournaments[slot].participant_count
                + 1;
        }
        assert(self.state.tournaments@ =~= before.tournaments@.update(
            slot as int,
            counted(before.tournaments@[slot as int], new_participant),
        ));

        let rank: u32 = update_leaderboard(&mut self.state.leaderboards[slot], &snapshot);
        proof {
            lemma_run_keeps_wf(before, self.state, wallet, username, run, now);
        }
        Response::RunSubmitted { run_id, xp_earned: xp, new_best, rank }
    }

    /// Submits a run for the wallet the caller acts for.
    ///
    /// Refused with `NotRegistered` where the caller is bound to no wallet and
    /// is not of the 20-byte form, or acts for a wallet without a profile
    /// whose default username belongs to another wallet; with
    /// `TournamentNotFound` where the tournament does not exist; and with
    /// `TournamentNotActive` where it has ended or reached its end time.
    /// Otherwise the caller is bound to the wallet, the wallet gets a profile
    /// if it had none, and the run is taken in.
    pub fn submit_run(
        &mut self,
        signer: AccountOwner,
        run: RunInput,
        now: u64,
    ) -> (result: Result<Response, TournamentError>)
        requires
            old(self).state.wf(),
            submission_fits(old(self).state, signer, run, now),
        ensures
            final(self).state.wf(),
            result == submit_result(old(self).state, final(self).state, signer, run, now),
            exists|enrolled: LabyrinthState| #[trigger]
                submit_effect(old(self).state, enrolled, final(self).state, signer, run, now),
    {
        let ghost before = self.state;
        let wallet = match self.resolve_submitter(&signer) {
            Some(wallet) => wallet,
            None => {
                assert(submit_effect(before, before, self.state, signer, run, now));
                return Err(TournamentError::NotRegistered);
            },
        };
        match self.check_admission(run.tournament_id, now) {
            Err(refusal) => {
                assert(submit_effect(before, before, self.state, signer, run, now));
                return Err(refusal);
            },
            Ok(_) => {},
        }
        match self.get_or_create_player(signer, wallet, now) {
            Ok(player) => {
                let ghost enrolled = self.state;
                proof {
                    lemma_fits_once_enrolled(before, enrolled, wallet, run, now);
                }
                let response = self.apply_run(wallet, player.username, run, now);
                assert(submit_effect(before, enrolled, self.state, signer, run, now));
                Ok(response)
            },
            Err(refusal) => Err(refusal),
        }
    }

    /// Prepares a run for forwarding to the store that holds the tournament:
    /// the caller is bound to the wallet it acts for, the wallet gets a
    /// profile if it had none, and the run is wrapped with the wallet and the
    /// profile's username.
    ///
    /// Refused with `NotRegistered`, and nothing changes, where the caller is
    /// bound to no wallet and is not of the 20-byte form, or acts for a wallet
    /// without a profile whose default username belongs to another wallet.
    pub fn forward_run(
        &mut self,
        signer: AccountOwner,
        run: RunInput,
        now: u64,
    ) -> (result: Result<Message, TournamentError>)
        requires
            old(self).state.wf(),
        ensures
            final(self).state.wf(),
            match submitting_wallet(old(self).state, signer) {
                None => result == Err::<Message, TournamentError>(TournamentError::NotRegistered)
                    && final(self).state == old(self).state,
                Some(wallet) => {
                    &&& enroll_effect(old(self).state, final(self).state, signer, wallet, now)
                    &&& has_player(final(self).state.players@, wallet)
                    &&& result == Ok::<Message, TournamentError>(
                        Message::ApplyRun {
                            wallet_address: wallet,
                            username: final(self).state.players@[player_index(
                                final(self).state.players@,
                                wallet,
                            )].username,
                            tournament_id: run.tournament_id,
                            time_ms: run.time_ms,
                            score: run.score,
                            coins: run.coins,
                            deaths: run.deaths,
                            completed: run.completed,
                        },
                    )
                },
            },
    {
        let wallet = match self.resolve_submitter(&signer) {
            Some(wallet) => wallet,
            None => {
                return Err(TournamentError::NotRegistered);
            },
        };
        match self.get_or_create_player(signer, wallet, now) {
            Ok(player) => Ok(
                Message::ApplyRun {
                    wallet_address: wallet,
                    username: player.username,
                    tournament_id: run.tournament_id,
                    time_ms: run.time_ms,
                    score: run.score,
                    coins: run.coins,
                    deaths: run.deaths,
                    completed: run.completed,
                },
            ),
            Err(refusal) => Err(refusal),
        }
    }

    /// Takes a forwarded run in as [`Self::execute_message`] does, and tells
    /// whether the counters had room for it.
    pub fn try_message(&mut self, message: Message, now: u64) -> (fits: bool)
        requires
            old(self).state.wf(),
        ensures
            final(self).state.wf(),
            fits == forwarded_fits(
                old(self).state,
                message_wallet(message),
                message_username(message)@,
                message_run(message),
                now,
            ),
            message_effect(old(self).state, final(self).state, message, now),
    {
        if !self.forwarded_has_room(&message, now) {
            return false;
        }
        self.take_forwarded(message, now);
        true
    }

    /// Takes a forwarded run in. A wallet without a profile first gets one
    /// under the forwarded username. A run is dropped, and nothing changes,
    /// where its tournament takes no submissions, where its wallet has no
    /// profile and the forwarded username belongs to another wallet, and
    /// where a counter it raises has no room.
    pub fn execute_message(&mut self, message: Message, now: u64)
        requires
            old(self).state.wf(),
        ensures
            final(self).state.wf(),
            message_effect(old(self).state, final(self).state, message, now),
    {
        let _ = self.try_message(message, now);
    }

    /// Takes a forwarded run in for which the counters have room.
    fn take_forwarded(&mut self, message: Message, now: u64)
        requires
            old(self).state.wf(),
            forwarded_fits(
                old(self).state,
                message_wallet(message),
                message_username(message)@,
                message_run(message),
                now,
            ),
        ensures
            final(self).state.wf(),
            exists|enrolled: LabyrinthState| #[trigger]
                forwarded_effect(
                    old(self).state,
                    enrolled,
                    final(self).state,
                    message_wallet(message),
                    message_username(message),
                    message_run(message),
                    now,
                ),
    {
        let ghost before = self.state;
        match message {
            Message::ApplyRun {
                wallet_address,
                username,
                tournament_id,
                time_ms,
                score,
                coins,
                deaths,
                completed,
            } => {
                let run = RunInput { tournament_id, time_ms, score, coins, deaths, completed };
                assert(message_wallet(message) == wallet_address);
                assert(message_username(message) == username);
                assert(message_run(message) == run);
                if !self.check_forwarded(&wallet_address, &username, tournament_id, now) {
                    assert(forwarded_effect(before, before, self.state, wallet_address, username, run, now));
                    return ;
                }
                if find_player(&self.state.players, &wallet_address).is_none() {
                    self.enlist(wallet_address, username.clone(), now);
                }
                let ghost enrolled = self.state;
                proof {
                    lemma_fits_once_enrolled(before, enrolled, wallet_address, run, now);
                }
                let _ = self.apply_run(wallet_address, username, run, now);
                assert(forwarded_effect(before, enrolled, self.state, wallet_address, username, run, now));
            },
        }
    }
}

/// The wallet a forwarded run is for.
pub open spec fn message_wallet(message: Message) -> [u8; 20] {
    match message {
        Message::ApplyRun { wallet_address, .. } => wallet_address,
    }
}

/// The username a forwarded run carries.
pub open spec fn message_username(message: Message) -> String {
    match message {
        Message::ApplyRun { username, .. } => username,
    }
}

/// What a forwarded run reports.
pub open spec fn message_run(message: Message) -> RunInput {
    match message {
        Message::ApplyRun { tournament_id, time_ms, score, coins, deaths, completed, .. } => RunInput {
            tournament_id,
            time_ms,
            score,
            coins,
            deaths,
            completed,
        },
    }
}

/// Enrolling a wallet changes neither whether its run is admitted nor
/// whether the run fits: a fresh profile has room for everything.
pub proof fn lemma_fits_once_enrolled(
    before: LabyrinthState,
    enrolled: LabyrinthState,
    wallet: [u8; 20],
    run: RunInput,
    now: u64,
)
    requires
        before.wf(),
        enrolled.wf(),
        admission(before, run.tournament_id, now) is Ok,
        run_fits(before, wallet, run),
        has_player(enrolled.players@, wallet),
        enrolled.tournaments == before.tournaments,
        enrolled.tournament_players == before.tournament_players,
        enrolled.next_run_id == before.next_run_id,
        if has_player(before.players@, wallet) {
            enrolled.players == before.players
        } else {
            &&& enrolled.players@.drop_last() == before.players@
            &&& enrolled.players@.len() == before.players@.len() + 1
            &&& enrolled.players@.last().wallet_address == wallet
            &&& enrolled.players@.last().total_xp == 0
            &&& enrolled.players@.last().tournaments_played == 0
        },
    ensures
        admission(enrolled, run.tournament_id, now) is Ok,
        run_fits(enrolled, wallet, run),
{
    lemma_xp_bounds(
        before.tournament(run.tournament_id).difficulty,
        run.time_ms as int,
        run.deaths as int,
        run.completed,
    );
    if !has_player(before.players@, wallet) {
        let last = enrolled.players@.len() - 1;
        lemma_player_index(enrolled.players@, wallet, last);
    }
}

} // verus!
