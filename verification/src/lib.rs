//! Tournament state machine for a maze-running competition: player identities,
//! per-tournament scoreboards, submitted runs, experience-point awards and prize
//! distribution, each operation stated and proved against a model of the store.

pub mod audit;
pub mod contract;
pub mod keys;
pub mod laws;
pub mod leaderboard;
pub mod manager;
pub mod pipeline;
pub mod registrar;
pub mod service;
pub mod state;
pub mod text;
pub mod types;
pub mod xp;

pub use crate::contract::LabyrinthTournamentContract;
pub use crate::service::LabyrinthTournamentService;
pub use crate::state::LabyrinthState;
pub use crate::types::{
    AccountOwner, Difficulty, GameRun, InitializationArgument, LabyrinthTournamentContractAbi,
    LeaderboardEntry, Message, Operation, Player, Response, Tournament, TournamentError,
    TournamentPlayer, TournamentReward, TournamentStatus,
};
