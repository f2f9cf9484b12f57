//! The records the store holds and the operations and responses that cross the
//! library's boundary. Timestamps are microseconds since the Unix epoch.

use vstd::prelude::*;

verus! {

/// Tournament status lifecycle: `Active` on creation, `Ended` once finalized.
#[derive(Clone, Copy, Debug, PartialEq, Eq, Structural)]
pub enum TournamentStatus {
    /// Currently accepting submissions.
    Active,
    /// Completed, leaderboard frozen.
    Ended,
}

/// Difficulty levels; each fixes the base experience of a run.
#[derive(Clone, Copy, Debug, PartialEq, Eq, Hash, Structural)]
pub enum Difficulty {
    Easy,
    Medium,
    Hard,
    Nightmare,
}

/// The transport-level identity of a caller. Only the 20-byte form can be
/// taken for a wallet on first contact.
#[derive(Clone, Copy, Debug, PartialEq, Eq)]
pub enum AccountOwner {
    /// A reserved, system-level identity.
    Reserved(u8),
    /// A 32-byte identity.
    Address32([u8; 32]),
    /// A 20-byte identity, the same shape as a wallet.
    Address20([u8; 20]),
}

/// Tournament configuration and running totals.
#[derive(Debug)]
pub struct Tournament {
    pub id: u64,
    pub title: String,
    pub description: String,
    pub maze_seed: String,
    pub difficulty: Difficulty,
    pub start_time: u64,
    pub end_time: u64,
    pub status: TournamentStatus,
    pub participant_count: u32,
    pub total_runs: u64,
    pub xp_reward_pool: u64,
    pub created_at: u64,
}

impl Clone for Tournament {
    fn clone(&self) -> (copy: Self)
        ensures
            copy == *self,
    {
        Tournament {
            id: self.id,
            title: self.title.clone(),
            description: self.description.clone(),
            maze_seed: self.maze_seed.clone(),
            difficulty: self.difficulty,
            start_time: self.start_time,
            end_time: self.end_time,
            status: self.status,
            participant_count: self.participant_count,
            total_runs: self.total_runs,
            xp_reward_pool: self.xp_reward_pool,
            created_at: self.created_at,
        }
    }
}

/// A player's aggregate within one tournament. `best_time_ms` is `u64::MAX`
/// until the player completes a run there.
#[derive(Debug)]
pub struct TournamentPlayer {
    pub wallet_address: [u8; 20],
    pub username: String,
    pub best_time_ms: u64,
    pub best_score: u64,
    pub total_runs: u32,
    pub total_xp_earned: u64,
    pub last_run_at: u64,
    pub joined_at: u64,
}

impl Clone for TournamentPlayer {
    fn clone(&self) -> (copy: Self)
        ensures
            copy == *self,
    {
        TournamentPlayer {
            wallet_address: self.wallet_address,
            username: self.username.clone(),
            best_time_ms: self.best_time_ms,
            best_score: self.best_score,
            total_runs: self.total_runs,
            total_xp_earned: self.total_xp_earned,
            last_run_at: self.last_run_at,
            joined_at: self.joined_at,
        }
    }
}

/// Global player profile, aggregated over all tournaments.
#[derive(Debug)]
pub struct Player {
    pub wallet_address: [u8; 20],
    pub username: String,
    pub total_xp: u64,
    pub total_runs: u64,
    pub tournaments_played: u32,
    pub tournaments_won: u32,
    pub best_time_ms: Option<u64>,
    pub registered_at: u64,
    pub last_active: u64,
}

impl Clone for Player {
    fn clone(&self) -> (copy: Self)
        ensures
            copy == *self,
    {
        Player {
            wallet_address: self.wallet_address,
            username: self.username.clone(),
            total_xp: self.total_xp,
            total_runs: self.total_runs,
            tournaments_played: self.tournaments_played,
            tournaments_won: self.tournaments_won,
            best_time_ms: self.best_time_ms,
            registered_at: self.registered_at,
            last_active: self.last_active,
        }
    }
}

/// The record of one submission; never changed once stored.
#[derive(Debug)]
pub struct GameRun {
    pub id: u64,
    pub tournament_id: u64,
    pub wallet_address: [u8; 20],
    pub username: String,
    pub time_ms: u64,
    pub score: u64,
    pub coins: u32,
    pub deaths: u32,
    pub completed: bool,
    pub xp_earned: u64,
    pub created_at: u64,
}

impl Clone for GameRun {
    fn clone(&self) -> (copy: Self)
        ensures
            copy == *self,
    {
        GameRun {
            id: self.id,
            tournament_id: self.tournament_id,
            wallet_address: self.wallet_address,
            username: self.username.clone(),
            time_ms: self.time_ms,
            score: self.score,
            coins: self.coins,
            deaths: self.deaths,
            completed: self.completed,
            xp_earned: self.xp_earned,
            created_at: self.created_at,
        }
    }
}

/// One line of a tournament's ranking, ordered by `best_time_ms` ascending.
#[derive(Debug)]
pub struct LeaderboardEntry {
    pub rank: u32,
    pub wallet_address: [u8; 20],
    pub username: String,
    pub best_time_ms: u64,
    pub best_score: u64,
    pub total_runs: u32,
    pub total_xp: u64,
}

impl Clone for LeaderboardEntry {
    fn clone(&self) -> (copy: Self)
        ensures
            copy == *self,
    {
        LeaderboardEntry {
            rank: self.rank,
            wallet_address: self.wallet_address,
            username: self.username.clone(),
            best_time_ms: self.best_time_ms,
            best_score: self.best_score,
            total_runs: self.total_runs,
            total_xp: self.total_xp,
        }
    }
}

/// One prize of an ended tournament.
#[derive(Clone, Copy, Debug)]
pub struct TournamentReward {
    pub tournament_id: u64,
    pub wallet_address: [u8; 20],
    pub rank: u32,
    pub xp_amount: u64,
    pub claimed: bool,
}

/// A run forwarded to the chain that holds the tournament state.
#[derive(Debug)]
pub enum Message {
    /// Apply a run submission to the authoritative state.
    ApplyRun {
        wallet_address: [u8; 20],
        username: String,
        tournament_id: u64,
        time_ms: u64,
        score: u64,
        coins: u32,
        deaths: u32,
        completed: bool,
    },
}

/// The operations a caller can submit.
#[derive(Debug)]
pub enum Operation {
    /// Register a player and bind the caller to the wallet.
    RegisterPlayer { wallet_address: [u8; 20], username: String },
    /// Submit a run to a tournament.
    SubmitRun {
        tournament_id: u64,
        time_ms: u64,
        score: u64,
        coins: u32,
        deaths: u32,
        completed: bool,
    },
    /// Open a new tournament.
    CreateTournament {
        title: String,
        description: String,
        maze_seed: String,
        difficulty: Difficulty,
        duration_days: u64,
        xp_reward_pool: u64,
    },
    /// Finalize a tournament whose end time has passed.
    EndTournament { tournament_id: u64 },
    /// Mark the caller's prize of an ended tournament as claimed.
    ClaimReward { tournament_id: u64 },
    /// Create tournament 1 unless it exists.
    BootstrapTournament,
}

/// Why an operation was refused. A refused operation leaves the state as it was.
#[derive(Clone, Copy, Debug, PartialEq, Eq, Structural)]
pub enum TournamentError {
    /// The transport supplied no caller identity.
    NotAuthenticated,
    /// The caller is bound to no wallet and cannot be enrolled on first
    /// contact: it is not of the 20-byte form, or the default username of its
    /// wallet belongs to another wallet.
    NotRegistered,
    /// The username belongs to another wallet.
    UsernameTaken,
    /// No tournament has the given id.
    TournamentNotFound,
    /// The tournament has ended or its end time has passed.
    TournamentNotActive,
    /// The tournament cannot be finalized before `end_time`.
    NotYetDue { end_time: u64 },
    /// The tournament was finalized before.
    AlreadyEnded,
    /// The caller holds no prize in the tournament.
    NoReward,
    /// The prize was claimed before.
    AlreadyClaimed,
    /// A tournament must last at least one day.
    InvalidDuration,
    /// The end time is not after the start time, or no timestamp can hold it.
    InvalidTimes,
}

/// What an operation answers.
#[derive(Debug)]
pub enum Response {
    /// The operation was taken and has nothing to report.
    Accepted,
    PlayerRegistered { wallet_address: [u8; 20] },
    RunSubmitted { run_id: u64, xp_earned: u64, new_best: bool, rank: u32 },
    TournamentCreated { id: u64, maze_seed: String, end_time: u64 },
    TournamentEnded { id: u64, winner_count: u32 },
    RewardClaimed { tournament_id: u64, xp_amount: u64 },
    TournamentBootstrapped { id: u64, end_time: u64, already_existed: bool },
    Error { message: String },
}

/// What the state is instantiated with.
#[derive(Debug)]
pub struct InitializationArgument {
    pub hub_chain_id: String,
}

impl Clone for InitializationArgument {
    fn clone(&self) -> (copy: Self)
        ensures
            copy == *self,
    {
        InitializationArgument { hub_chain_id: self.hub_chain_id.clone() }
    }
}

/// Marker for the interface of the contract: its operations are [`Operation`],
/// its responses [`Response`].
pub struct LabyrinthTournamentContractAbi;

} // verus!
