//! The state machine and its dispatcher.
//!
//! Each operation takes the caller's identity and the current time as plain
//! values, leaves a store that was well-formed well-formed, and leaves it
//! untouched when it refuses.

use vstd::prelude::*;
use crate::manager::{
    bootstrap_effect, bootstrap_result, claim_effect, claim_result, create_effect, create_result,
    end_effect, end_result, ending, prizes_fit,
};
use crate::pipeline::{submission_fits, submit_effect, submit_result, RunInput};
use crate::registrar::{register_effect, register_result};
use crate::state::LabyrinthState;
use crate::text::{decimal, decimal_string};
use crate::types::{AccountOwner, Operation, Response, TournamentError};

verus! {

impl TournamentError {
    /// The message a caller reads for the refusal.
    pub open spec fn text(self) -> Seq<char> {
        match self {
            TournamentError::NotAuthenticated => "Not authenticated"@,
            TournamentError::NotRegistered => "Player not registered. Call registerPlayer first."@,
            TournamentError::UsernameTaken => "Username already taken"@,
            TournamentError::TournamentNotFound => "Tournament not found"@,
            TournamentError::TournamentNotActive => "Tournament is not active"@,
            TournamentError::NotYetDue { end_time } => "Tournament cannot be finalized yet. Ends at timestamp "@
                + decimal(end_time as nat),
            TournamentError::AlreadyEnded => "Tournament already ended"@,
            TournamentError::NoReward => "No reward found for this tournament"@,
            TournamentError::AlreadyClaimed => "Reward already claimed"@,
            TournamentError::InvalidDuration => "Tournament duration must be at least one day"@,
            TournamentError::InvalidTimes => "Tournament end time is out of range"@,
        }
    }

    /// The message a caller reads for the refusal.
    pub fn message(&self) -> (message: String)
        ensures
            message@ == self.text(),
    {
        match self {
            TournamentError::NotAuthenticated => "Not authenticated".to_owned(),
            TournamentError::NotRegistered => "Player not registered. Call registerPlayer first.".to_owned(),
            TournamentError::UsernameTaken => "Username already taken".to_owned(),
            TournamentError::TournamentNotFound => "Tournament not found".to_owned(),
            TournamentError::TournamentNotActive => "Tournament is not active".to_owned(),
            TournamentError::NotYetDue { end_time } => {
                let mut message = "Tournament cannot be finalized yet. Ends at timestamp ".to_owned();
                let digits = decimal_string(*end_time);
                message.append(digits.as_str());
                message
            },
            TournamentError::AlreadyEnded => "Tournament already ended".to_owned(),
            TournamentError::NoReward => "No reward found for this tournament".to_owned(),
            TournamentError::AlreadyClaimed => "Reward already claimed".to_owned(),
            TournamentError::InvalidDuration => "Tournament duration must be at least one day".to_owned(),
            TournamentError::InvalidTimes => "Tournament end time is out of range".to_owned(),
        }
    }
}

/// Whether `response` is what a caller is told of `result`: the response of
/// an accepted operation itself, or the message of the refusal.
pub open spec fn answers(response: Response, result: Result<Response, TournamentError>) -> bool {
    match result {
        Ok(accepted) => response == accepted,
        Err(refusal) => response matches Response::Error { message } && message@ == refusal.text(),
    }
}

/// The response a caller is told of `result`.
pub fn respond(result: Result<Response, TournamentError>) -> (response: Response)
    ensures
        answers(response, result),
{
    match result {
        Ok(accepted) => accepted,
        Err(refusal) => Response::Error { message: refusal.message() },
    }
}

/// Whether every counter the operation raises has room.
pub open spec fn operation_fits(
    state: LabyrinthState,
    signer: AccountOwner,
    operation: Operation,
    now: u64,
) -> bool {
    match operation {
        Operation::SubmitRun { tournament_id, time_ms, score, coins, deaths, completed } => submission_fits(
            state,
            signer,
            RunInput { tournament_id, time_ms, score, coins, deaths, completed },
            now,
        ),
        Operation::CreateTournament { .. } => state.next_tournament_id < u64::MAX,
        Operation::EndTournament { tournament_id } => ending(state, tournament_id, now) is Ok ==> prizes_fit(
            state,
            tournament_id,
        ),
        _ => true,
    }
}

/// How the operation of the caller `signer` takes `before` to `after`, and
/// what it answers.
pub open spec fn operation_effect(
    before: LabyrinthState,
    after: LabyrinthState,
    response: Response,
    signer: AccountOwner,
    operation: Operation,
    now: u64,
) -> bool {
    match operation {
        Operation::RegisterPlayer { wallet_address, username } => {
            &&& register_effect(before, after, signer, wallet_address, username@, now)
            &&& answers(response, register_result(before, wallet_address, username@))
        },
        Operation::SubmitRun { tournament_id, time_ms, score, coins, deaths, completed } => {
            let run = RunInput { tournament_id, time_ms, score, coins, deaths, completed };
            &&& exists|enrolled: LabyrinthState| #[trigger]
                submit_effect(before, enrolled, after, signer, run, now)
            &&& answers(response, submit_result(before, after, signer, run, now))
        },
        Operation::CreateTournament {
            title,
            description,
            maze_seed,
            difficulty,
            duration_days,
            xp_reward_pool,
        } => {
            &&& create_effect(
                before,
                after,
                title,
                description,
                maze_seed,
                difficulty,
                duration_days,
                xp_reward_pool,
                now,
            )
            &&& answers(response, create_result(before, maze_seed, duration_days, now))
        },
        Operation::EndTournament { tournament_id } => {
            &&& end_effect(before, after, tournament_id, now)
            &&& answers(response, end_result(before, tournament_id, now))
        },
        Operation::ClaimReward { tournament_id } => {
            &&& claim_effect(before, after, signer, tournament_id)
            &&& answers(response, claim_result(before, signer, tournament_id))
        },
        Operation::BootstrapTournament => {
            &&& bootstrap_effect(before, after, now)
            &&& answers(response, bootstrap_result(before, now))
        },
    }
}

/// The state machine: the store and the operations on it.
#[derive(Debug)]
pub struct LabyrinthTournamentContract {
    pub state: LabyrinthState,
}

impl LabyrinthTournamentContract {
    /// The state machine over a store as it was last left.
    pub fn load(state: LabyrinthState) -> (contract: Self)
        ensures
            contract.state == state,
    {
        LabyrinthTournamentContract { state }
    }

    /// The state machine over a store that comes from outside, if everything
    /// holds of it that the operations rely on.
    pub fn restore(state: LabyrinthState) -> (contract: Option<Self>)
        ensures
            contract is Some <==> state.wf(),
            contract is Some ==> contract.unwrap().state == state,
    {
        if state.is_well_formed() {
            Some(LabyrinthTournamentContract { state })
        } else {
            None
        }
    }

    /// The store, to be kept until the next operation.
    pub fn store(self) -> (state: LabyrinthState)
        ensures
            state == self.state,
    {
        self.state
    }

    /// Whether every counter the operation of `signer` raises has room.
    pub fn operation_has_room(
        &self,
        signer: &AccountOwner,
        operation: &Operation,
        now: u64,
    ) -> (fits: bool)
        requires
            self.state.wf(),
        ensures
            fits == operation_fits(self.state, *signer, *operation, now),
    {
        match operation {
            Operation::SubmitRun { tournament_id, time_ms, score, coins, deaths, completed } => {
                let run = RunInput {
                    tournament_id: *tournament_id,
                    time_ms: *time_ms,
                    score: *score,
                    coins: *coins,
                    deaths: *deaths,
                    completed: *completed,
                };
                self.submission_has_room(signer, run, now)
            },
            Operation::CreateTournament { .. } => self.state.next_tournament_id < u64::MAX,
            Operation::EndTournament { tournament_id } => {
                if self.check_ending(*tournament_id, now).is_err() {
                    return true;
                }
                self.prizes_have_room(*tournament_id)
            },
            _ => true,
        }
    }

    /// Carries out one operation as [`Self::execute_operation`] does, unless
    /// a counter it raises has no room: then nothing changes and there is no
    /// answer.
    pub fn try_operation(
        &mut self,
        signer: Option<AccountOwner>,
        operation: Operation,
        now: u64,
    ) -> (response: Option<Response>)
        requires
            old(self).state.wf(),
        ensures
            final(self).state.wf(),
            response is None <==> signer is Some && !operation_fits(
                old(self).state,
                signer.unwrap(),
                operation,
                now,
            ),
            response is None ==> final(self).state == old(self).state,
            response is Some && signer is None ==> final(self).state == old(self).state && answers(
                response.unwrap(),
                Err(TournamentError::NotAuthenticated),
            ),
            response is Some && signer is Some ==> operation_effect(
                old(self).state,
                final(self).state,
                response.unwrap(),
                signer.unwrap(),
                operation,
                now,
            ),
    {
        match &signer {
            Some(caller) => {
                if !self.operation_has_room(caller, &operation, now) {
                    return None;
                }
            },
            None => {},
        }
        Some(self.execute_operation(signer, operation, now))
    }

    /// Carries out one operation for the caller the transport authenticated,
    /// and answers it. An operation without a caller is refused as
    /// `NotAuthenticated`; a refused operation changes nothing and answers
    /// with the message of its refusal.
    pub fn execute_operation(
        &mut self,
        signer: Option<AccountOwner>,
        operation: Operation,
        now: u64,
    ) -> (response: Response)
        requires
            old(self).state.wf(),
            signer is Some ==> operation_fits(old(self).state, signer.unwrap(), operation, now),
        ensures
            final(self).state.wf(),
            signer is None ==> final(self).state == old(self).state && answers(
                response,
                Err(TournamentError::NotAuthenticated),
            ),
            signer is Some ==> operation_effect(
                old(self).state,
                final(self).state,
                response,
                signer.unwrap(),
                operation,
                now,
            ),
    {
        let signer = match signer {
            Some(signer) => signer,
            None => {
                return respond(Err(TournamentError::NotAuthenticated));
            },
        };
        match operation {
            Operation::RegisterPlayer { wallet_address, username } => {
                respond(self.register_player(signer, wallet_address, username, now))
            },
            Operation::SubmitRun { tournament_id, time_ms, score, coins, deaths, completed } => {
                let run = RunInput { tournament_id, time_ms, score, coins, deaths, completed };
                respond(self.submit_run(signer, run, now))
            },
            Operation::CreateTournament {
                title,
                description,
                maze_seed,
                difficulty,
                duration_days,
                xp_reward_pool,
            } => {
                respond(
                    self.create_tournament(
                        title,
                        description,
                        maze_seed,
                        difficulty,
                        duration_days,
                        xp_reward_pool,
                        now,
                    ),
                )
            },
            Operation::EndTournament { tournament_id } => { respond(self.end_tournament(tournament_id, now)) },
            Operation::ClaimReward { tournament_id } => { respond(self.claim_reward(signer, tournament_id)) },
            Operation::BootstrapTournament => { respond(self.bootstrap_tournament(now)) },
        }
    }
}

} // verus!
