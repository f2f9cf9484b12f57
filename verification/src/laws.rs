//! What holds of the state machine as a whole: of every well-formed store, and
//! of every step an operation takes.

use vstd::prelude::*;
use crate::contract::operation_effect;
use crate::leaderboard::{
    board_wf, distinct_wallets, insert_pos, lemma_first_unique, lemma_insert_pos,
    lemma_stable_sort_distinct, lemma_stable_sort_ordered, lemma_stable_sort_same_lines,
    lists_wallet, position_of, ranks_dense, sorted_by_time, stable_sort, LEADERBOARD_CAPACITY,
};
use crate::manager::{
    awarded, bootstrap_effect, bootstrap_result, claim_effect, claim_result, lemma_awarded_keeps_identity,
    podium,
};
use crate::pipeline::{
    forwarded_admission, forwarded_effect, forwarded_fits, lemma_fits_once_enrolled,
    lemma_run_keeps_wf, message_effect, message_run, message_username, message_wallet,
    submit_effect, RunInput,
};
use crate::registrar::{
    bound_wallet, default_username, enlisted, lemma_enlisted_keeps_wf,
    lemma_name_of_missing_wallet_is_free, register_effect,
    register_result, submitting_wallet, username_owner, username_taken,
};
use crate::state::{
    binding_index, capped, distinct_participants, has_binding, has_participant, has_player,
    has_username, leads_to, lemma_leads_to, lemma_participant_index, lemma_player_index, line_shows,
    participant_of, participants_in, player_index, reward_index, reward_is, row_is, runs_in,
    usernames_unique, xp_from_rewards, xp_from_runs, LabyrinthState, SignerBinding,
    TournamentPlayerRow,
};
use crate::service::{newest_first, newest_slot, status_matches};
use crate::types::{
    AccountOwner, GameRun, LeaderboardEntry, Message, Operation, Response, Tournament,
    TournamentError, TournamentStatus,
};

verus! {

/// The wallets that take part in tournament `tournament_id`.
pub open spec fn participant_set(
    rows: Seq<TournamentPlayerRow>,
    tournament_id: u64,
) -> Set<[u8; 20]> {
    Set::new(|wallet: [u8; 20]| has_participant(rows, tournament_id, wallet))
}

/// The ids of the runs submitted to tournament `tournament_id`.
pub open spec fn run_id_set(runs: Seq<GameRun>, tournament_id: u64) -> Set<int> {
    Set::new(|id: int| 1 <= id <= runs.len() && runs[id - 1].tournament_id == tournament_id)
}

/// Where no participant has two rows, a tournament has as many participant
/// rows as distinct participating wallets.
pub proof fn lemma_participant_set(rows: Seq<TournamentPlayerRow>, tournament_id: u64)
    requires
        distinct_participants(rows),
    ensures
        participant_set(rows, tournament_id).finite(),
        participant_set(rows, tournament_id).len() == participants_in(rows, tournament_id),
    decreases rows.len(),
{
    let all = participant_set(rows, tournament_id);
    if rows.len() == 0 {
        assert(all =~= Set::<[u8; 20]>::empty());
    } else {
        let init = rows.drop_last();
        let last = rows.last();
        assert(forall|i: int| 0 <= i < init.len() ==> init[i] == rows[i]);
        assert(last == rows[rows.len() - 1]);
        lemma_participant_set(init, tournament_id);
        let rest = participant_set(init, tournament_id);
        assert forall|w: [u8; 20]| has_participant(init, tournament_id, w) implies has_participant(
            rows,
            tournament_id,
            w,
        ) by {
            let i = choose|i: int| 0 <= i < init.len() && row_is(#[trigger] init[i], tournament_id, w);
            assert(row_is(rows[i], tournament_id, w));
        }
        if last.tournament_id == tournament_id {
            let wallet = last.player.wallet_address;
            assert(row_is(rows[rows.len() - 1], tournament_id, wallet));
            assert(!rest.contains(wallet)) by {
                if has_participant(init, tournament_id, wallet) {
                    let i = choose|i: int|
                        0 <= i < init.len() && row_is(#[trigger] init[i], tournament_id, wallet);
                    assert(row_is(rows[i], rows[rows.len() - 1].tournament_id, rows[rows.len() - 1].player.wallet_address));
                }
            }
            assert forall|w: [u8; 20]| all.contains(w) implies rest.insert(wallet).contains(w) by {
                let i = choose|i: int| 0 <= i < rows.len() && row_is(#[trigger] rows[i], tournament_id, w);
                if i < init.len() {
                    assert(row_is(init[i], tournament_id, w));
                }
            }
            assert(all =~= rest.insert(wallet));
        } else {
            assert forall|w: [u8; 20]| all.contains(w) implies rest.contains(w) by {
                let i = choose|i: int| 0 <= i < rows.len() && row_is(#[trigger] rows[i], tournament_id, w);
                assert(row_is(init[i], tournament_id, w));
            }
            assert(all =~= rest);
        }
    }
}

/// A tournament has as many runs as there are run ids that name it.
pub proof fn lemma_run_id_set(runs: Seq<GameRun>, tournament_id: u64)
    ensures
        run_id_set(runs, tournament_id).finite(),
        run_id_set(runs, tournament_id).len() == runs_in(runs, tournament_id),
    decreases runs.len(),
{
    let all = run_id_set(runs, tournament_id);
    if runs.len() == 0 {
        assert(all =~= Set::<int>::empty());
    } else {
        let init = runs.drop_last();
        lemma_run_id_set(init, tournament_id);
        let rest = run_id_set(init, tournament_id);
        assert(forall|i: int| 0 <= i < init.len() ==> init[i] == runs[i]);
        if runs.last().tournament_id == tournament_id {
            assert(all =~= rest.insert(runs.len() as int));
        } else {
            assert(all =~= rest);
        }
    }
}

/// The participant count of a tournament is the number of distinct wallets
/// that have an aggregate in it.
pub proof fn law_participant_count(state: LabyrinthState, tournament_id: u64)
    requires
        state.wf(),
        state.has_tournament(tournament_id),
    ensures
        participant_set(state.tournament_players@, tournament_id).finite(),
        state.tournament(tournament_id).participant_count == participant_set(
            state.tournament_players@,
            tournament_id,
        ).len(),
{
    lemma_participant_set(state.tournament_players@, tournament_id);
    assert(state.tournaments@[tournament_id - 1].participant_count == participants_in(
        state.tournament_players@,
        ((tournament_id - 1) + 1) as u64,
    ));
}

/// The run count of a tournament is the number of runs submitted to it.
pub proof fn law_total_runs(state: LabyrinthState, tournament_id: u64)
    requires
        state.wf(),
        state.has_tournament(tournament_id),
    ensures
        run_id_set(state.runs@, tournament_id).finite(),
        state.tournament(tournament_id).total_runs == run_id_set(state.runs@, tournament_id).len(),
{
    lemma_run_id_set(state.runs@, tournament_id);
    assert(state.tournaments@[tournament_id - 1].total_runs == runs_in(
        state.runs@,
        ((tournament_id - 1) + 1) as u64,
    ));
}

/// Every ranking is in ascending order of best time, and its ranks are
/// `1..=n` from the top.
pub proof fn law_leaderboard_ranked(state: LabyrinthState, tournament_id: u64)
    requires
        state.wf(),
        state.has_tournament(tournament_id),
    ensures
        sorted_by_time(state.board(tournament_id)),
        ranks_dense(state.board(tournament_id)),
{
    assert(board_wf(state.leaderboards@[tournament_id - 1]@));
}

/// Ordering leaves a ranking that is in order as it is: no tie is reordered.
pub proof fn law_ordered_ranking_unchanged(s: Seq<LeaderboardEntry>)
    requires
        sorted_by_time(s),
    ensures
        stable_sort(s) == s,
    decreases s.len(),
{
    if s.len() > 0 {
        let init = s.drop_last();
        assert(sorted_by_time(init)) by {
            assert forall|i: int, j: int| 0 <= i < j < init.len() implies init[i].best_time_ms
                <= init[j].best_time_ms by {
                assert(init[i] == s[i] && init[j] == s[j]);
            }
        }
        law_ordered_ranking_unchanged(init);
        if init.len() > 0 {
            assert(init.last() == s[s.len() - 2]);
        }
        assert(insert_pos(init, s.last().best_time_ms) == init.len());
        assert(init.insert(init.len() as int, s.last()) =~= s);
    } else {
        assert(stable_sort(s) =~= s);
    }
}

/// Ordering a ranking rearranges its lines and nothing else: the output holds
/// each line as often as the input does.
pub proof fn law_sort_is_permutation(s: Seq<LeaderboardEntry>)
    ensures
        stable_sort(s).to_multiset() == s.to_multiset(),
    decreases s.len(),
{
    if s.len() > 0 {
        let init = s.drop_last();
        let last = s.last();
        let head = stable_sort(init);
        law_sort_is_permutation(init);
        lemma_stable_sort_ordered(init);
        lemma_insert_pos(head, last.best_time_ms);
        let p = insert_pos(head, last.best_time_ms);
        vstd::seq_lib::to_multiset_insert(head, p, last);
        vstd::seq_lib::to_multiset_build(init, last);
        assert(init.push(last) =~= s);
    }
}

/// Where a line of `sorted` is the line `line`, in a ranking without repeated
/// wallets: at the position of its wallet.
proof fn lemma_position_of_line(sorted: Seq<LeaderboardEntry>, k: int)
    requires
        distinct_wallets(sorted),
        0 <= k < sorted.len(),
    ensures
        position_of(sorted, sorted[k].wallet_address) == k,
{
    assert forall|j: int| 0 <= j < k implies (#[trigger] sorted[j]).wallet_address
        != sorted[k].wallet_address by {
        assert(sorted[j].wallet_address != sorted[k].wallet_address);
    }
    lemma_first_unique(sorted, sorted[k].wallet_address, k);
}

/// Ordering is stable: of two lines, the one that stood first and is not
/// slower than the other stands first afterwards. Lines with equal best times
/// keep their order.
pub proof fn law_sort_is_stable(s: Seq<LeaderboardEntry>, a: int, b: int)
    requires
        distinct_wallets(s),
        0 <= a < b < s.len(),
        s[a].best_time_ms <= s[b].best_time_ms,
    ensures
        position_of(stable_sort(s), s[a].wallet_address) < position_of(
            stable_sort(s),
            s[b].wallet_address,
        ),
        0 <= position_of(stable_sort(s), s[a].wallet_address),
        position_of(stable_sort(s), s[b].wallet_address) < s.len(),
        stable_sort(s)[position_of(stable_sort(s), s[a].wallet_address)] == s[a],
        stable_sort(s)[position_of(stable_sort(s), s[b].wallet_address)] == s[b],
    decreases s.len(),
{
    let init = s.drop_last();
    let last = s.last();
    let head = stable_sort(init);
    assert forall|i: int, j: int| 0 <= i < j < init.len() implies (#[trigger] init[i]).wallet_address != (
    #[trigger] init[j]).wallet_address by {
        assert(init[i] == s[i] && init[j] == s[j]);
    }
    lemma_stable_sort_ordered(init);
    lemma_stable_sort_same_lines(init);
    lemma_stable_sort_distinct(init);
    lemma_stable_sort_distinct(s);
    lemma_insert_pos(head, last.best_time_ms);
    let p = insert_pos(head, last.best_time_ms);
    let out = head.insert(p, last);
    assert(out == stable_sort(s));
    // where the line that stood at `a` is in the ordered head
    assert(init[a] == s[a]);
    assert(head.contains(init[a]));
    let ka = choose|k: int| 0 <= k < head.len() && head[k] == init[a];
    let oa = if ka < p {
        ka
    } else {
        ka + 1
    };
    assert(out[oa] == s[a]);
    lemma_position_of_line(out, oa);
    if b == s.len() - 1 {
        assert(out[p] == s[b]);
        lemma_position_of_line(out, p);
        if ka >= p {
            assert(head[ka].best_time_ms > last.best_time_ms);
        }
    } else {
        law_sort_is_stable(init, a, b);
        assert(init[b] == s[b]);
        lemma_position_of_line(head, ka);
        let kb = position_of(head, init[b].wallet_address);
        assert(head[kb] == init[b]);
        let ob = if kb < p {
            kb
        } else {
            kb + 1
        };
        assert(out[ob] == s[b]);
        lemma_position_of_line(out, ob);
    }
}

/// Every line of a ranking belongs to a participant of the tournament and
/// carries the values of its aggregate there.
pub proof fn law_ranking_shows_aggregates(state: LabyrinthState, tournament_id: u64, e: int)
    requires
        state.wf(),
        state.has_tournament(tournament_id),
        0 <= e < state.board(tournament_id).len(),
    ensures
        has_participant(state.tournament_players@, tournament_id, state.board(tournament_id)[e].wallet_address),
        line_shows(
            state.board(tournament_id)[e],
            participant_of(
                state.tournament_players@,
                tournament_id,
                state.board(tournament_id)[e].wallet_address,
            ),
        ),
{
    let k = tournament_id - 1;
    let line = state.leaderboards@[k]@[e];
    assert(lists_wallet(state.leaderboards@[k]@, line.wallet_address));
    assert(line_shows(
        line,
        participant_of(state.tournament_players@, (k + 1) as u64, state.leaderboards@[k]@[e].wallet_address),
    ));
}

/// A ranking has one line for each participant of its tournament, up to the
/// capacity; while it is below the capacity, every participant is on it with
/// its best time.
pub proof fn law_ranking_lists_participants(state: LabyrinthState, tournament_id: u64, i: int)
    requires
        state.wf(),
        state.has_tournament(tournament_id),
        0 <= i < state.tournament_players@.len(),
        state.tournament_players@[i].tournament_id == tournament_id,
    ensures
        state.board(tournament_id).len() == capped(state.tournament(tournament_id).participant_count as nat),
        state.board(tournament_id).len() < LEADERBOARD_CAPACITY ==> exists|e: int|
            0 <= e < state.board(tournament_id).len() && (#[trigger] state.board(tournament_id)[e]).wallet_address
                == state.tournament_players@[i].player.wallet_address && state.board(
                tournament_id,
            )[e].best_time_ms == state.tournament_players@[i].player.best_time_ms,
{
    let k = tournament_id - 1;
    let rows = state.tournament_players@;
    let board = state.leaderboards@[k]@;
    let wallet = rows[i].player.wallet_address;
    assert(state.tournaments@[k].participant_count == participants_in(rows, (k + 1) as u64));
    assert(board.len() == capped(participants_in(rows, (k + 1) as u64)));
    if board.len() < LEADERBOARD_CAPACITY {
        assert(lists_wallet(state.leaderboards@[k]@, rows[i].player.wallet_address));
        let e = choose|e: int| 0 <= e < board.len() && (#[trigger] board[e]).wallet_address == wallet;
        assert(line_shows(
            state.leaderboards@[k]@[e],
            participant_of(rows, (k + 1) as u64, state.leaderboards@[k]@[e].wallet_address),
        ));
        lemma_participant_index(rows, tournament_id, wallet, i);
        assert(state.board(tournament_id)[e].wallet_address == wallet);
    }
}

/// A player's experience is what its runs earned plus what its prizes
/// awarded.
pub proof fn law_experience_balance(state: LabyrinthState, j: int)
    requires
        state.wf(),
        0 <= j < state.players@.len(),
    ensures
        state.players@[j].total_xp == xp_from_runs(state.runs@, state.players@[j].wallet_address)
            + xp_from_rewards(state.rewards@, state.players@[j].wallet_address),
{
}

/// Run ids are dense from 1 and the counter holds the next unused one.
pub proof fn law_run_ids_dense(state: LabyrinthState, i: int)
    requires
        state.wf(),
        0 <= i < state.runs@.len(),
    ensures
        state.runs@[i].id == i + 1,
        state.runs@[i].id < state.next_run_id,
{
}

/// Bootstrapping again changes nothing: with a clock that does not run
/// backwards, the state after any number of further calls is the state after
/// the first. Once a call was accepted, every further call answers that the
/// tournament existed, with its stored end time.
pub proof fn law_bootstrap_idempotent(
    s0: LabyrinthState,
    s1: LabyrinthState,
    s2: LabyrinthState,
    t1: u64,
    t2: u64,
)
    requires
        bootstrap_effect(s0, s1, t1),
        bootstrap_effect(s1, s2, t2),
        t1 <= t2,
    ensures
        s2 == s1,
        bootstrap_result(s0, t1) is Ok ==> bootstrap_result(s1, t2) == Ok::<Response, TournamentError>(
            Response::TournamentBootstrapped {
                id: 1,
                end_time: s1.tournament(1).end_time,
                already_existed: true,
            },
        ),
        bootstrap_result(s0, t1) is Err ==> bootstrap_result(s1, t2) == bootstrap_result(s0, t1),
{
    if bootstrap_result(s0, t1) is Ok {
        assert(s1.has_tournament(1));
    }
}

/// Claiming is accepted once: after an accepted claim, the same claim is
/// refused as `AlreadyClaimed`, and changes nothing.
pub proof fn law_claim_once(
    s0: LabyrinthState,
    s1: LabyrinthState,
    s2: LabyrinthState,
    signer: AccountOwner,
    tournament_id: u64,
)
    requires
        s0.wf(),
        claim_result(s0, signer, tournament_id) is Ok,
        claim_effect(s0, s1, signer, tournament_id),
        claim_effect(s1, s2, signer, tournament_id),
    ensures
        claim_result(s1, signer, tournament_id) == Err::<Response, TournamentError>(
            TournamentError::AlreadyClaimed,
        ),
        s2 == s1,
{
    let wallet = crate::registrar::bound_wallet(s0.signer_to_wallet@, signer);
    let at = reward_index(s0.rewards@, tournament_id, wallet);
    assert(0 <= at < s0.rewards@.len() && reward_is(s0.rewards@[at], tournament_id, wallet));
    assert(reward_is(s1.rewards@[at], tournament_id, wallet));
    let at1 = reward_index(s1.rewards@, tournament_id, wallet);
    assert(0 <= at1 < s1.rewards@.len() && reward_is(s1.rewards@[at1], tournament_id, wallet));
    assert(reward_is(s0.rewards@[at1], tournament_id, wallet));
    if at1 < at {
        assert(!reward_is(
            s0.rewards@[at1],
            s0.rewards@[at].tournament_id,
            s0.rewards@[at].wallet_address,
        ));
    }
    if at < at1 {
        assert(!reward_is(
            s0.rewards@[at],
            s0.rewards@[at1].tournament_id,
            s0.rewards@[at1].wallet_address,
        ));
    }
}

/// Every run that was stored is still stored, in its place and unchanged.
pub open spec fn runs_kept(before: Seq<GameRun>, after: Seq<GameRun>) -> bool {
    &&& before.len() <= after.len()
    &&& forall|i: int| 0 <= i < before.len() ==> #[trigger] after[i] == before[i]
}

/// Runs are append-only: no operation removes or rewrites a stored run.
pub proof fn law_runs_append_only(
    before: LabyrinthState,
    after: LabyrinthState,
    response: Response,
    signer: AccountOwner,
    operation: Operation,
    now: u64,
)
    requires
        operation_effect(before, after, response, signer, operation, now),
    ensures
        runs_kept(before.runs@, after.runs@),
{
    match operation {
        Operation::SubmitRun { tournament_id, time_ms, score, coins, deaths, completed } => {
            let run = RunInput { tournament_id, time_ms, score, coins, deaths, completed };
            let enrolled = choose|enrolled: LabyrinthState| #[trigger]
                submit_effect(before, enrolled, after, signer, run, now);
            assert(submit_effect(before, enrolled, after, signer, run, now));
        },
        _ => {},
    }
}

/// A forwarded run removes or rewrites no stored run either.
pub proof fn law_forwarded_runs_append_only(
    before: LabyrinthState,
    after: LabyrinthState,
    message: Message,
    now: u64,
)
    requires
        message_effect(before, after, message, now),
    ensures
        runs_kept(before.runs@, after.runs@),
{
    if after != before {
        let enrolled = choose|enrolled: LabyrinthState| #[trigger]
            forwarded_effect(
                before,
                enrolled,
                after,
                message_wallet(message),
                message_username(message),
                message_run(message),
                now,
            );
        assert(forwarded_effect(
            before,
            enrolled,
            after,
            message_wallet(message),
            message_username(message),
            message_run(message),
            now,
        ));
    }
}

/// Every forwarded run leaves a well-formed store well-formed: whatever the
/// run and whatever the store, the counts, the rankings, the balances and the
/// usernames are as they must be afterwards.
pub proof fn law_forwarded_run_keeps_store(
    before: LabyrinthState,
    after: LabyrinthState,
    message: Message,
    now: u64,
)
    requires
        before.wf(),
        message_effect(before, after, message, now),
    ensures
        after.wf(),
{
    let wallet = message_wallet(message);
    let username = message_username(message);
    let run = message_run(message);
    if forwarded_fits(before, wallet, username@, run, now) {
        let enrolled = choose|enrolled: LabyrinthState| #[trigger]
            forwarded_effect(before, enrolled, after, wallet, username, run, now);
        assert(forwarded_effect(before, enrolled, after, wallet, username, run, now));
        if forwarded_admission(before, wallet, username@, run.tournament_id, now) {
            if !has_player(before.players@, wallet) {
                lemma_enlisted_keeps_wf(before, enrolled, wallet, username@, now);
                let last = enrolled.players@.len() - 1;
                assert(enrolled.players@[last].wallet_address == wallet);
            }
            lemma_fits_once_enrolled(before, enrolled, wallet, run, now);
            lemma_run_keeps_wf(enrolled, after, wallet, username, run, now);
        }
    }
}

/// A tournament that has ended stays ended: no operation brings it back.
pub proof fn law_ended_stays_ended(
    before: LabyrinthState,
    after: LabyrinthState,
    response: Response,
    signer: AccountOwner,
    operation: Operation,
    now: u64,
    tournament_id: u64,
)
    requires
        before.wf(),
        operation_effect(before, after, response, signer, operation, now),
        before.has_tournament(tournament_id),
        before.tournament(tournament_id).status == TournamentStatus::Ended,
    ensures
        after.has_tournament(tournament_id),
        after.tournament(tournament_id).status == TournamentStatus::Ended,
{
    match operation {
        Operation::SubmitRun { tournament_id: tid, time_ms, score, coins, deaths, completed } => {
            let run = RunInput { tournament_id: tid, time_ms, score, coins, deaths, completed };
            let enrolled = choose|enrolled: LabyrinthState| #[trigger]
                submit_effect(before, enrolled, after, signer, run, now);
            assert(submit_effect(before, enrolled, after, signer, run, now));
        },
        Operation::CreateTournament { .. } => {
            if after != before {
                assert(after.tournaments@[tournament_id - 1] == before.tournaments@[tournament_id - 1]);
            }
        },
        Operation::BootstrapTournament => {
            assert(after.tournaments@ == before.tournaments@);
        },
        _ => {},
    }
}

/// A prize that was claimed stays claimed, and no operation changes the
/// wallet, the tournament or the amount of a recorded prize.
pub proof fn law_claimed_stays_claimed(
    before: LabyrinthState,
    after: LabyrinthState,
    response: Response,
    signer: AccountOwner,
    operation: Operation,
    now: u64,
    i: int,
)
    requires
        before.wf(),
        operation_effect(before, after, response, signer, operation, now),
        0 <= i < before.rewards@.len(),
    ensures
        i < after.rewards@.len(),
        after.rewards@[i].tournament_id == before.rewards@[i].tournament_id,
        after.rewards@[i].wallet_address == before.rewards@[i].wallet_address,
        after.rewards@[i].xp_amount == before.rewards@[i].xp_amount,
        before.rewards@[i].claimed ==> after.rewards@[i].claimed,
{
    match operation {
        Operation::SubmitRun { tournament_id, time_ms, score, coins, deaths, completed } => {
            let run = RunInput { tournament_id, time_ms, score, coins, deaths, completed };
            let enrolled = choose|enrolled: LabyrinthState| #[trigger]
                submit_effect(before, enrolled, after, signer, run, now);
            assert(submit_effect(before, enrolled, after, signer, run, now));
        },
        _ => {},
    }
}

/// The stored tournaments of the status asked for, in the order of their ids.
pub open spec fn asked_for(
    tournaments: Seq<Tournament>,
    status: Option<TournamentStatus>,
) -> Seq<Tournament> {
    tournaments.filter(|tournament: Tournament| status_matches(tournament, status))
}

/// Where a tournament goes in a list that has the newest first: within the
/// list, behind every tournament that does not start earlier and before every
/// one that does.
pub proof fn lemma_newest_slot(listed: Seq<Tournament>, start: u64)
    ensures
        0 <= newest_slot(listed, start) <= listed.len(),
        forall|k: int|
            newest_slot(listed, start) <= k < listed.len() ==> (#[trigger] listed[k]).start_time < start,
        newest_slot(listed, start) > 0 ==> listed[newest_slot(listed, start) - 1].start_time >= start,
    decreases listed.len(),
{
    if listed.len() > 0 && listed.last().start_time < start {
        let init = listed.drop_last();
        lemma_newest_slot(init, start);
        assert forall|k: int| newest_slot(listed, start) <= k < listed.len() implies (
        #[trigger] listed[k]).start_time < start by {
            if k < init.len() {
                assert(listed[k] == init[k]);
            }
        }
    }
}

/// The list of tournaments has the newest start first.
pub proof fn law_listing_newest_first(
    tournaments: Seq<Tournament>,
    status: Option<TournamentStatus>,
)
    ensures
        forall|i: int, j: int|
            0 <= i < j < newest_first(tournaments, status).len() ==> newest_first(
                tournaments,
                status,
            )[i].start_time >= newest_first(tournaments, status)[j].start_time,
    decreases tournaments.len(),
{
    if tournaments.len() > 0 {
        let last = tournaments.last();
        let head = newest_first(tournaments.drop_last(), status);
        law_listing_newest_first(tournaments.drop_last(), status);
        if status_matches(last, status) {
            lemma_newest_slot(head, last.start_time);
            let p = newest_slot(head, last.start_time);
            let out = head.insert(p, last);
            assert forall|i: int, j: int| 0 <= i < j < out.len() implies out[i].start_time
                >= out[j].start_time by {
                if j < p {
                    assert(out[i] == head[i] && out[j] == head[j]);
                } else if j == p {
                    assert(out[i] == head[i]);
                    if p > 0 {
                        assert(head[i].start_time >= head[p - 1].start_time);
                    }
                } else if i < p {
                    assert(out[i] == head[i] && out[j] == head[j - 1]);
                } else if i == p {
                    assert(out[j] == head[j - 1]);
                    assert(head[j - 1].start_time < last.start_time);
                } else {
                    assert(out[i] == head[i - 1] && out[j] == head[j - 1]);
                }
            }
        }
    }
}

/// The list of tournaments holds exactly the stored tournaments of the status
/// asked for, each as often as the store holds it.
pub proof fn law_listing_complete(tournaments: Seq<Tournament>, status: Option<TournamentStatus>)
    ensures
        newest_first(tournaments, status).to_multiset() == asked_for(tournaments, status).to_multiset(),
    decreases tournaments.len(),
{
    reveal(Seq::filter);
    let wanted = |tournament: Tournament| status_matches(tournament, status);
    assert(asked_for(tournaments, status) == tournaments.filter(wanted));
    if tournaments.len() > 0 {
        let init = tournaments.drop_last();
        let last = tournaments.last();
        let head = newest_first(init, status);
        law_listing_complete(init, status);
        assert(asked_for(init, status) == init.filter(wanted));
        if status_matches(last, status) {
            assert(wanted(last));
            assert(tournaments.filter(wanted) == init.filter(wanted).push(last));
            lemma_newest_slot(head, last.start_time);
            vstd::seq_lib::to_multiset_insert(head, newest_slot(head, last.start_time), last);
            vstd::seq_lib::to_multiset_build(init.filter(wanted), last);
        } else {
            assert(!wanted(last));
            assert(tournaments.filter(wanted) == init.filter(wanted));
        }
    } else {
        assert(tournaments.filter(wanted) =~= Seq::<Tournament>::empty());
    }
}

/// Every tournament on the list is a stored one of the status asked for.
pub proof fn law_listing_holds_stored(
    tournaments: Seq<Tournament>,
    status: Option<TournamentStatus>,
)
    ensures
        forall|k: int|
            0 <= k < newest_first(tournaments, status).len() ==> tournaments.contains(
                #[trigger] newest_first(tournaments, status)[k],
            ) && status_matches(newest_first(tournaments, status)[k], status),
    decreases tournaments.len(),
{
    if tournaments.len() > 0 {
        let init = tournaments.drop_last();
        let last = tournaments.last();
        let head = newest_first(init, status);
        law_listing_holds_stored(init, status);
        let out = newest_first(tournaments, status);
        assert forall|k: int| 0 <= k < head.len() implies tournaments.contains(#[trigger] head[k]) by {
            assert(init.contains(head[k]));
            let m = choose|m: int| 0 <= m < init.len() && init[m] == head[k];
            assert(tournaments[m] == head[k]);
        }
        if status_matches(last, status) {
            lemma_newest_slot(head, last.start_time);
            let p = newest_slot(head, last.start_time);
            assert forall|k: int| 0 <= k < out.len() implies tournaments.contains(#[trigger] out[k])
                && status_matches(out[k], status) by {
                if k < p {
                    assert(out[k] == head[k]);
                } else if k == p {
                    assert(tournaments[tournaments.len() - 1] == out[k]);
                } else {
                    assert(out[k] == head[k - 1]);
                }
            }
        }
    }
}

/// Every stored tournament of the status asked for is on the list.
pub proof fn law_listing_holds_all(tournaments: Seq<Tournament>, status: Option<TournamentStatus>)
    ensures
        forall|i: int|
            0 <= i < tournaments.len() && status_matches(tournaments[i], status) ==> newest_first(
                tournaments,
                status,
            ).contains(#[trigger] tournaments[i]),
    decreases tournaments.len(),
{
    if tournaments.len() > 0 {
        let init = tournaments.drop_last();
        let last = tournaments.last();
        let head = newest_first(init, status);
        law_listing_holds_all(init, status);
        let out = newest_first(tournaments, status);
        if status_matches(last, status) {
            lemma_newest_slot(head, last.start_time);
            let p = newest_slot(head, last.start_time);
            assert forall|i: int|
                0 <= i < tournaments.len() && status_matches(tournaments[i], status) implies out.contains(
                #[trigger] tournaments[i],
            ) by {
                if i == tournaments.len() - 1 {
                    assert(out[p] == tournaments[i]);
                } else {
                    assert(init[i] == tournaments[i]);
                    assert(head.contains(init[i]));
                    let k = choose|k: int| 0 <= k < head.len() && head[k] == init[i];
                    if k < p {
                        assert(out[k] == tournaments[i]);
                    } else {
                        assert(out[k + 1] == tournaments[i]);
                    }
                }
            }
        } else {
            assert forall|i: int|
                0 <= i < tournaments.len() && status_matches(tournaments[i], status) implies out.contains(
                #[trigger] tournaments[i],
            ) by {
                assert(init[i] == tournaments[i]);
            }
        }
    }
}

/// Where no two stored tournaments have the same id, no two on the list have:
/// the list holds each tournament once.
pub proof fn law_listing_each_once(tournaments: Seq<Tournament>, status: Option<TournamentStatus>)
    requires
        forall|i: int, j: int|
            0 <= i < j < tournaments.len() ==> (#[trigger] tournaments[i]).id != (
            #[trigger] tournaments[j]).id,
    ensures
        forall|a: int, b: int|
            0 <= a < b < newest_first(tournaments, status).len() ==> (#[trigger] newest_first(
                tournaments,
                status,
            )[a]).id != (#[trigger] newest_first(tournaments, status)[b]).id,
    decreases tournaments.len(),
{
    if tournaments.len() > 0 {
        let init = tournaments.drop_last();
        let last = tournaments.last();
        let head = newest_first(init, status);
        assert forall|i: int, j: int| 0 <= i < j < init.len() implies (#[trigger] init[i]).id != (
        #[trigger] init[j]).id by {
            assert(init[i] == tournaments[i] && init[j] == tournaments[j]);
        }
        law_listing_each_once(init, status);
        if status_matches(last, status) {
            law_listing_holds_stored(init, status);
            lemma_newest_slot(head, last.start_time);
            let p = newest_slot(head, last.start_time);
            let out = head.insert(p, last);
            assert forall|k: int| 0 <= k < head.len() implies (#[trigger] head[k]).id != last.id by {
                assert(init.contains(head[k]));
                let m = choose|m: int| 0 <= m < init.len() && init[m] == head[k];
                assert(tournaments[m] == head[k]);
                assert(tournaments[m].id != tournaments[tournaments.len() - 1].id);
            }
            assert forall|a: int, b: int| 0 <= a < b < out.len() implies (#[trigger] out[a]).id != (
            #[trigger] out[b]).id by {
                let x = if a < p {
                    a
                } else {
                    a - 1
                };
                let y = if b < p {
                    b
                } else {
                    b - 1
                };
                if a == p {
                    assert(out[b] == head[y]);
                } else if b == p {
                    assert(out[a] == head[x]);
                } else {
                    assert(out[a] == head[x] && out[b] == head[y]);
                    assert(x < y);
                }
            }
        }
    }
}

/// In every well-formed store usernames are unique: no two profiles bear the
/// same one, and the index leads each profile's username to that profile's
/// wallet and to no other.
pub proof fn law_usernames_unique(state: LabyrinthState, i: int, j: int)
    requires
        state.wf(),
        0 <= i < state.players@.len(),
        0 <= j < state.players@.len(),
    ensures
        i != j ==> state.players@[i].username@ != state.players@[j].username@,
        has_username(state.username_to_wallet@, state.players@[i].username@),
        username_owner(state.username_to_wallet@, state.players@[i].username@)
            == state.players@[i].wallet_address,
{
    let ps = state.players@;
    if i < j {
        assert(ps[i].username@ != ps[j].username@);
    }
    if j < i {
        assert(ps[j].username@ != ps[i].username@);
    }
    assert(leads_to(state.username_to_wallet@, ps[i].username@, ps[i].wallet_address));
    lemma_leads_to(state.username_to_wallet@, ps[i].username@, ps[i].wallet_address);
}

/// No operation changes the wallet, the username or the time of registration
/// of a profile, or removes a profile.
pub proof fn law_profiles_keep_identity(
    before: LabyrinthState,
    after: LabyrinthState,
    response: Response,
    signer: AccountOwner,
    operation: Operation,
    now: u64,
    j: int,
)
    requires
        before.wf(),
        operation_effect(before, after, response, signer, operation, now),
        0 <= j < before.players@.len(),
    ensures
        j < after.players@.len(),
        after.players@[j].wallet_address == before.players@[j].wallet_address,
        after.players@[j].username == before.players@[j].username,
        after.players@[j].registered_at == before.players@[j].registered_at,
{
    match operation {
        Operation::RegisterPlayer { wallet_address, username } => {
            if after.players@.len() != before.players@.len() {
                assert(after.players@.drop_last()[j] == after.players@[j]);
            }
        },
        Operation::SubmitRun { tournament_id, time_ms, score, coins, deaths, completed } => {
            let run = RunInput { tournament_id, time_ms, score, coins, deaths, completed };
            let enrolled = choose|enrolled: LabyrinthState| #[trigger]
                submit_effect(before, enrolled, after, signer, run, now);
            assert(submit_effect(before, enrolled, after, signer, run, now));
            if after != before {
                if enrolled.players@.len() != before.players@.len() {
                    assert(enrolled.players@.drop_last()[j] == enrolled.players@[j]);
                }
                assert(enrolled.players@[j] == before.players@[j]);
            }
        },
        Operation::EndTournament { tournament_id } => {
            if after != before {
                lemma_awarded_keeps_identity(
                    before.players@[j],
                    podium(before.board(tournament_id)),
                    before.tournament(tournament_id).xp_reward_pool,
                );
            }
        },
        _ => {},
    }
}

/// Usernames stay unique under every operation.
pub proof fn law_usernames_stay_unique(
    before: LabyrinthState,
    after: LabyrinthState,
    response: Response,
    signer: AccountOwner,
    operation: Operation,
    now: u64,
)
    requires
        before.wf(),
        operation_effect(before, after, response, signer, operation, now),
    ensures
        usernames_unique(after.players@),
{
    match operation {
        Operation::RegisterPlayer { wallet_address, username } => {
            if !username_taken(before.username_to_wallet@, username@, wallet_address) && !has_player(
                before.players@,
                wallet_address,
            ) {
                lemma_name_of_missing_wallet_is_free(before, wallet_address, username@);
                lemma_enlisted_unique(before, after, wallet_address, username@, now);
            }
        },
        Operation::SubmitRun { tournament_id, time_ms, score, coins, deaths, completed } => {
            let run = RunInput { tournament_id, time_ms, score, coins, deaths, completed };
            let enrolled = choose|enrolled: LabyrinthState| #[trigger]
                submit_effect(before, enrolled, after, signer, run, now);
            assert(submit_effect(before, enrolled, after, signer, run, now));
            if after != before {
                let wallet = submitting_wallet(before, signer).unwrap();
                if !has_player(before.players@, wallet) {
                    lemma_enlisted_unique(before, enrolled, wallet, default_username(wallet), now);
                }
                assert(usernames_unique(enrolled.players@));
                assert forall|i: int, j: int| 0 <= i < j < after.players@.len() implies (
                #[trigger] after.players@[i]).username@ != (#[trigger] after.players@[j]).username@ by {
                    assert(after.players@[i].username == enrolled.players@[i].username);
                    assert(after.players@[j].username == enrolled.players@[j].username);
                }
            }
        },
        Operation::EndTournament { tournament_id } => {
            if after != before {
                let winners = podium(before.board(tournament_id));
                let pool = before.tournament(tournament_id).xp_reward_pool;
                assert forall|i: int, j: int| 0 <= i < j < after.players@.len() implies (
                #[trigger] after.players@[i]).username@ != (#[trigger] after.players@[j]).username@ by {
                    lemma_awarded_keeps_identity(before.players@[i], winners, pool);
                    lemma_awarded_keeps_identity(before.players@[j], winners, pool);
                }
            }
        },
        _ => {},
    }
}

/// Usernames stay unique under every forwarded run.
pub proof fn law_forwarded_usernames_stay_unique(
    before: LabyrinthState,
    after: LabyrinthState,
    message: Message,
    now: u64,
)
    requires
        before.wf(),
        message_effect(before, after, message, now),
    ensures
        usernames_unique(after.players@),
{
    if after != before {
        let wallet = message_wallet(message);
        let username = message_username(message);
        let run = message_run(message);
        let enrolled = choose|enrolled: LabyrinthState| #[trigger]
            forwarded_effect(before, enrolled, after, wallet, username, run, now);
        assert(forwarded_effect(before, enrolled, after, wallet, username, run, now));
        if !has_player(before.players@, wallet) {
            lemma_enlisted_unique(before, enrolled, wallet, username@, now);
        }
        assert forall|i: int, j: int| 0 <= i < j < after.players@.len() implies (
        #[trigger] after.players@[i]).username@ != (#[trigger] after.players@[j]).username@ by {
            assert(after.players@[i].username == enrolled.players@[i].username);
            assert(after.players@[j].username == enrolled.players@[j].username);
        }
    }
}

/// A fresh profile under a username that the index does not hold keeps the
/// usernames unique.
pub proof fn lemma_enlisted_unique(
    before: LabyrinthState,
    after: LabyrinthState,
    wallet: [u8; 20],
    username: Seq<char>,
    now: u64,
)
    requires
        before.wf(),
        enlisted(before, after, wallet, username, now),
        !has_username(before.username_to_wallet@, username),
    ensures
        usernames_unique(after.players@),
{
    let ps = before.players@;
    let qs = after.players@;
    assert forall|i: int, j: int| 0 <= i < j < qs.len() implies (#[trigger] qs[i]).username@ != (
    #[trigger] qs[j]).username@ by {
        assert(qs.drop_last()[i] == qs[i]);
        if j < ps.len() {
            assert(qs.drop_last()[j] == qs[j]);
            assert(ps[i].username@ != ps[j].username@);
        } else {
            assert(leads_to(before.username_to_wallet@, ps[i].username@, ps[i].wallet_address));
            lemma_leads_to(before.username_to_wallet@, ps[i].username@, ps[i].wallet_address);
        }
    }
}

/// Registering a wallet again under the username its profile bears is
/// accepted, whatever happened to the store in between: the profile, every
/// other profile and the index stay as they are, and the caller is bound to
/// the wallet.
pub proof fn law_register_idempotent(
    before: LabyrinthState,
    after: LabyrinthState,
    signer: AccountOwner,
    wallet: [u8; 20],
    username: Seq<char>,
    now: u64,
)
    requires
        before.wf(),
        has_player(before.players@, wallet),
        before.players@[player_index(before.players@, wallet)].username@ == username,
        register_effect(before, after, signer, wallet, username, now),
    ensures
        register_result(before, wallet, username) == Ok::<Response, TournamentError>(
            Response::PlayerRegistered { wallet_address: wallet },
        ),
        after.players == before.players,
        after.username_to_wallet == before.username_to_wallet,
        has_binding(after.signer_to_wallet@, signer),
        bound_wallet(after.signer_to_wallet@, signer) == wallet,
        after == (LabyrinthState { signer_to_wallet: after.signer_to_wallet, ..before }),
{
    let ps = before.players@;
    let j = player_index(ps, wallet);
    assert(0 <= j < ps.len() && ps[j].wallet_address == wallet);
    law_usernames_unique(before, j, j);
    assert(!username_taken(before.username_to_wallet@, username, wallet));
    let b0 = before.signer_to_wallet@;
    let b1 = after.signer_to_wallet@;
    let bound = SignerBinding { signer, wallet_address: wallet };
    if has_binding(b0, signer) {
        let k = binding_index(b0, signer);
        assert(0 <= k < b0.len() && b0[k].signer == signer);
        assert(b1[k] == bound);
        assert(has_binding(b1, signer));
        let k1 = binding_index(b1, signer);
        assert(0 <= k1 < b1.len() && b1[k1].signer == signer);
        assert(b1[k1].signer == b0[k1].signer);
        if k < k1 {
            assert(b0[k].signer != b0[k1].signer);
        }
        if k1 < k {
            assert(b0[k1].signer != b0[k].signer);
        }
    } else {
        let k = b0.len() as int;
        assert(b1[k] == bound);
        assert(has_binding(b1, signer));
        let k1 = binding_index(b1, signer);
        assert(0 <= k1 < b1.len() && b1[k1].signer == signer);
        if k1 < k {
            assert(b1[k1] == b0[k1]);
        }
    }
}

/// After a registration that was accepted for a wallet without a profile,
/// the wallet has a profile under the username given.
pub proof fn law_register_creates_profile(
    before: LabyrinthState,
    after: LabyrinthState,
    signer: AccountOwner,
    wallet: [u8; 20],
    username: Seq<char>,
    now: u64,
)
    requires
        before.wf(),
        after.wf(),
        !has_player(before.players@, wallet),
        register_result(before, wallet, username) is Ok,
        register_effect(before, after, signer, wallet, username, now),
    ensures
        has_player(after.players@, wallet),
        after.players@[player_index(after.players@, wallet)].username@ == username,
        after.players@[player_index(after.players@, wallet)].registered_at == now,
{
    let qs = after.players@;
    let last = qs.len() - 1;
    assert(qs[last].wallet_address == wallet);
    lemma_player_index(qs, wallet, last);
}

} // verus!
