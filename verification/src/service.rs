//! The read side: side-effect-free queries over the store, each answering
//! from what the last operation left.

use vstd::prelude::*;
use crate::keys::wallet_of;
use crate::leaderboard::{find_entry, lists_wallet, position_of, LEADERBOARD_CAPACITY};
use crate::registrar::username_owner;
use crate::state::{
    find_binding, find_participant, find_player, find_reward, find_username, has_binding,
    has_participant, has_player, has_reward, has_username, participant_index, player_index,
    reward_index, LabyrinthState,
};
use crate::text::{
    address_digits, owner_of_hex, parse_account_owner, parse_wallet_address, wallet_of_hex,
};
use crate::types::{
    Difficulty, GameRun, LeaderboardEntry, Operation, Player, Tournament, TournamentPlayer,
    TournamentReward, TournamentStatus,
};

verus! {

/// When the placeholder tournament starts: 1 February 2026, 00:00 UTC.
pub const PLACEHOLDER_START: u64 = 1_769_904_000_000_000;

/// When the placeholder tournament ends: fifteen days after its start.
pub const PLACEHOLDER_END: u64 = 1_771_200_000_000_000;

/// How many runs the activity feed shows when no limit is given.
pub const DEFAULT_RECENT_LIMIT: u32 = 20;

/// A summary of the store.
#[derive(Clone, Copy, Debug)]
pub struct Stats {
    /// An estimate of the number of players: a tenth of the runs.
    pub total_players: u64,
    pub total_tournaments: u64,
    pub total_runs: u64,
    pub active_tournament_id: Option<u64>,
}

/// Whether `tournament` is the placeholder shown for tournament 1 while the
/// store holds none: the same fixed values for everyone.
pub open spec fn is_placeholder_tournament(tournament: Tournament) -> bool {
    &&& tournament.id == 1
    &&& tournament.title@ == "February 2026 Championship"@
    &&& tournament.description@ == "15-day tournament - fastest time wins!"@
    &&& tournament.maze_seed@ == "labyrinth-feb-2026"@
    &&& tournament.difficulty == Difficulty::Medium
    &&& tournament.start_time == PLACEHOLDER_START
    &&& tournament.end_time == PLACEHOLDER_END
    &&& tournament.status == TournamentStatus::Active
    &&& tournament.participant_count == 0
    &&& tournament.total_runs == 0
    &&& tournament.xp_reward_pool == 10_000
    &&& tournament.created_at == PLACEHOLDER_START
}

/// Whether `answer` is what the store gives for tournament `id`: the stored
/// tournament, else the placeholder for id 1, else nothing.
pub open spec fn answers_tournament(
    state: LabyrinthState,
    id: u64,
    answer: Option<Tournament>,
) -> bool {
    if state.has_tournament(id) {
        answer == Some(state.tournament(id))
    } else if id == 1 {
        answer is Some && is_placeholder_tournament(answer.unwrap())
    } else {
        answer is None
    }
}

/// Whether `answer` is the tournament published as active: the stored one the
/// handle names, else the placeholder.
pub open spec fn answers_active(state: LabyrinthState, answer: Option<Tournament>) -> bool {
    if state.active_tournament_id is Some && state.has_tournament(state.active_tournament_id.unwrap()) {
        answer == Some(state.tournament(state.active_tournament_id.unwrap()))
    } else {
        answer is Some && is_placeholder_tournament(answer.unwrap())
    }
}

/// Whether a tournament is asked for: any status, or the given one.
pub open spec fn status_matches(tournament: Tournament, status: Option<TournamentStatus>) -> bool {
    status is None || status == Some(tournament.status)
}

/// Where a tournament that starts at `start` goes in a list that has the
/// newest first: behind the last one that does not start earlier, found from
/// the end.
pub open spec fn newest_slot(listed: Seq<Tournament>, start: u64) -> int
    decreases listed.len(),
{
    if listed.len() == 0 {
        0
    } else if listed.last().start_time >= start {
        listed.len() as int
    } else {
        newest_slot(listed.drop_last(), start)
    }
}

/// The tournaments asked for, newest start first; those that start together
/// stand in the order of their ids.
pub open spec fn newest_first(
    tournaments: Seq<Tournament>,
    status: Option<TournamentStatus>,
) -> Seq<Tournament>
    decreases tournaments.len(),
{
    if tournaments.len() == 0 {
        Seq::empty()
    } else {
        let head = newest_first(tournaments.drop_last(), status);
        if status_matches(tournaments.last(), status) {
            head.insert(newest_slot(head, tournaments.last().start_time), tournaments.last())
        } else {
            head
        }
    }
}

/// The first lines of a ranking, at most `limit` of them.
pub open spec fn first_lines(board: Seq<LeaderboardEntry>, limit: int) -> Seq<LeaderboardEntry> {
    if limit < board.len() {
        board.take(limit)
    } else {
        board
    }
}

/// The profile of `wallet`, if it has one.
pub open spec fn player_row(state: LabyrinthState, wallet: [u8; 20]) -> Option<Player> {
    if has_player(state.players@, wallet) {
        Some(state.players@[player_index(state.players@, wallet)])
    } else {
        None
    }
}

/// The aggregate of `wallet` in tournament `tournament_id`, if it takes part.
pub open spec fn participant_row(
    state: LabyrinthState,
    tournament_id: u64,
    wallet: [u8; 20],
) -> Option<TournamentPlayer> {
    if has_participant(state.tournament_players@, tournament_id, wallet) {
        Some(
            state.tournament_players@[participant_index(
                state.tournament_players@,
                tournament_id,
                wallet,
            )].player,
        )
    } else {
        None
    }
}

/// The prize of `wallet` in tournament `tournament_id`, if it holds one.
pub open spec fn reward_row(
    state: LabyrinthState,
    tournament_id: u64,
    wallet: [u8; 20],
) -> Option<TournamentReward> {
    if has_reward(state.rewards@, tournament_id, wallet) {
        Some(state.rewards@[reward_index(state.rewards@, tournament_id, wallet)])
    } else {
        None
    }
}

/// The rank of `wallet` in tournament `tournament_id`, if the ranking lists it.
pub open spec fn rank_row(
    state: LabyrinthState,
    tournament_id: u64,
    wallet: [u8; 20],
) -> Option<u32> {
    if state.has_tournament(tournament_id) && lists_wallet(state.board(tournament_id), wallet) {
        Some(state.board(tournament_id)[position_of(state.board(tournament_id), wallet)].rank)
    } else {
        None
    }
}

/// The run of that id, if there is one.
pub open spec fn run_row(state: LabyrinthState, id: u64) -> Option<GameRun> {
    if 1 <= id <= state.runs@.len() {
        Some(state.runs@[id - 1])
    } else {
        None
    }
}

/// The prizes of `wallet` in the tournaments `1..=through`, in the order of
/// the tournament ids.
pub open spec fn rewards_through(
    state: LabyrinthState,
    wallet: [u8; 20],
    through: nat,
) -> Seq<TournamentReward>
    decreases through,
{
    if through == 0 {
        Seq::empty()
    } else {
        let head = rewards_through(state, wallet, (through - 1) as nat);
        match reward_row(state, through as u64, wallet) {
            Some(reward) => head.push(reward),
            None => head,
        }
    }
}

/// The wallet a registration is made for: the bytes given when they are
/// twenty, else the zero wallet.
pub fn wallet_or_zero(bytes: &Vec<u8>) -> (wallet: [u8; 20])
    ensures
        bytes@.len() == 20 ==> wallet@ == bytes@,
        bytes@.len() != 20 ==> wallet@ == Seq::new(20, |i: int| 0u8),
{
    if bytes.len() == 20 {
        wallet_of(bytes)
    } else {
        let wallet = [0u8; 20];
        assert(wallet@ =~= Seq::new(20, |i: int| 0u8));
        wallet
    }
}

/// The operation that registers `username` for the wallet with the given
/// bytes.
pub fn register_operation(wallet_address: Vec<u8>, username: String) -> (operation: Operation)
    ensures
        operation matches Operation::RegisterPlayer { wallet_address: wallet, username: name } && name
            == username && (wallet_address@.len() == 20 ==> wallet@ == wallet_address@) && (
        wallet_address@.len() != 20 ==> wallet@ == Seq::new(20, |i: int| 0u8)),
{
    let wallet = wallet_or_zero(&wallet_address);
    Operation::RegisterPlayer { wallet_address: wallet, username }
}

/// The read side of the state machine.
#[derive(Debug)]
pub struct LabyrinthTournamentService {
    pub state: LabyrinthState,
}

impl LabyrinthTournamentService {
    /// The read side over a store as the last operation left it.
    pub fn new(state: LabyrinthState) -> (service: Self)
        ensures
            service.state == state,
    {
        LabyrinthTournamentService { state }
    }

    /// The read side over a store that comes from outside, if everything
    /// holds of it that the queries rely on.
    pub fn restore(state: LabyrinthState) -> (service: Option<Self>)
        ensures
            service is Some <==> state.wf(),
            service is Some ==> service.unwrap().state == state,
    {
        if state.is_well_formed() {
            Some(LabyrinthTournamentService { state })
        } else {
            None
        }
    }

    /// The placeholder for tournament 1.
    pub fn get_default_tournament(&self) -> (tournament: Tournament)
        ensures
            is_placeholder_tournament(tournament),
    {
        Tournament {
            id: 1,
            title: "February 2026 Championship".to_owned(),
            description: "15-day tournament - fastest time wins!".to_owned(),
            maze_seed: "labyrinth-feb-2026".to_owned(),
            difficulty: Difficulty::Medium,
            start_time: PLACEHOLDER_START,
            end_time: PLACEHOLDER_END,
            status: TournamentStatus::Active,
            participant_count: 0,
            total_runs: 0,
            xp_reward_pool: 10_000,
            created_at: PLACEHOLDER_START,
        }
    }

    /// A summary of the store: how many tournaments and runs there are, an
    /// estimate of the players, and the tournament published as active.
    pub fn stats(&self) -> (stats: Stats)
        requires
            self.state.wf(),
        ensures
            stats.total_tournaments == self.state.tournaments@.len(),
            stats.total_runs == self.state.runs@.len(),
            stats.total_players == self.state.runs@.len() / 10,
            stats.active_tournament_id == self.state.active_tournament_id,
    {
        let total_runs: u64 = self.state.next_run_id - 1;
        Stats {
            total_players: total_runs / 10,
            total_tournaments: self.state.next_tournament_id - 1,
            total_runs,
            active_tournament_id: self.state.active_tournament_id,
        }
    }

    /// The tournament published as active; the placeholder while the store
    /// names none.
    pub fn active_tournament(&self) -> (answer: Option<Tournament>)
        ensures
            answers_active(self.state, answer),
    {
        match self.state.active_tournament_id {
            Some(id) => {
                if 1 <= id && id <= self.state.tournaments.len() as u64 {
                    let slot: usize = (id - 1) as usize;
                    return Some(self.state.tournaments[slot].clone());
                }
            },
            None => {},
        }
        Some(self.get_default_tournament())
    }

    /// The tournament of that id; for id 1 the placeholder while the store
    /// holds none.
    pub fn tournament(&self, id: u64) -> (answer: Option<Tournament>)
        ensures
            answers_tournament(self.state, id, answer),
    {
        if 1 <= id && id <= self.state.tournaments.len() as u64 {
            let slot: usize = (id - 1) as usize;
            Some(self.state.tournaments[slot].clone())
        } else if id == 1 {
            Some(self.get_default_tournament())
        } else {
            None
        }
    }

    /// The tournaments of the given status, or all, newest start first.
    pub fn tournaments(&self, status: Option<TournamentStatus>) -> (listed: Vec<Tournament>)
        ensures
            listed@ == newest_first(self.state.tournaments@, status),
    {
        let ghost all = self.state.tournaments@;
        let mut listed: Vec<Tournament> = Vec::new();
        let n: usize = self.state.tournaments.len();
        let mut i: usize = 0;
        proof {
            assert(all.take(0) =~= Seq::<Tournament>::empty());
        }
        while i < n
            invariant
                i <= n,
                n == all.len(),
                all == self.state.tournaments@,
                listed@ == newest_first(all.take(i as int), status),
            decreases n - i,
        {
            let wanted: bool = match status {
                None => true,
                Some(TournamentStatus::Active) => match self.state.tournaments[i].status {
                    TournamentStatus::Active => true,
                    TournamentStatus::Ended => false,
                },
                Some(TournamentStatus::Ended) => match self.state.tournaments[i].status {
                    TournamentStatus::Active => false,
                    TournamentStatus::Ended => true,
                },
            };
            proof {
                let next = all.take(i + 1);
                assert(next.drop_last() =~= all.take(i as int));
                assert(next.last() == all[i as int]);
            }
            if wanted {
                let start: u64 = self.state.tournaments[i].start_time;
                let ghost head = listed@;
                let mut j: usize = listed.len();
                proof {
                    assert(head.take(j as int) =~= head);
                }
                while j > 0 && listed[j - 1].start_time < start
                    invariant
                        j <= listed.len(),
                        listed@ == head,
                        newest_slot(head, start) == newest_slot(head.take(j as int), start),
                    decreases j,
                {
                    proof {
                        let cur = head.take(j as int);
                        assert(cur.last() == head[j - 1]);
                        assert(cur.drop_last() =~= head.take(j - 1));
                    }
                    j -= 1;
                }
                proof {
                    let cur = head.take(j as int);
                    if j > 0 {
                        assert(cur.last() == head[j - 1]);
                    }
                }
                listed.insert(j, self.state.tournaments[i].clone());
            }
            i += 1;
        }
        proof {
            assert(all.take(n as int) =~= all);
        }
        listed
    }

    /// The first lines of a tournament's ranking: at most `limit` of them, or
    /// the whole ranking when no limit is given; nothing for a tournament
    /// that does not exist.
    pub fn leaderboard(
        &self,
        tournament_id: u64,
        limit: Option<u32>,
    ) -> (lines: Vec<LeaderboardEntry>)
        requires
            self.state.wf(),
        ensures
            lines@ == if self.state.has_tournament(tournament_id) {
                first_lines(
                    self.state.board(tournament_id),
                    match limit {
                        Some(limit) => limit as int,
                        None => LEADERBOARD_CAPACITY as int,
                    },
                )
            } else {
                Seq::empty()
            },
    {
        let mut lines: Vec<LeaderboardEntry> = Vec::new();
        if tournament_id < 1 || tournament_id > self.state.tournaments.len() as u64 {
            return lines;
        }
        let slot: usize = (tournament_id - 1) as usize;
        let limit: usize = match limit {
            Some(limit) => limit as usize,
            None => LEADERBOARD_CAPACITY,
        };
        let n: usize = if limit < self.state.leaderboards[slot].len() {
            limit
        } else {
            self.state.leaderboards[slot].len()
        };
        let mut i: usize = 0;
        while i < n
            invariant
                i <= n,
                slot < self.state.leaderboards@.len(),
                n <= self.state.leaderboards@[slot as int]@.len(),
                lines@ == self.state.leaderboards@[slot as int]@.take(i as int),
            decreases n - i,
        {
            lines.push(self.state.leaderboards[slot][i].clone());
            assert(lines@ =~= self.state.leaderboards@[slot as int]@.take(i + 1));
            i += 1;
        }
        proof {
            let board = self.state.leaderboards@[slot as int]@;
            if n == board.len() {
                assert(board.take(n as int) =~= board);
            }
        }
        lines
    }

    /// The rank of a wallet in a tournament's ranking.
    pub fn rank_of_wallet(&self, tournament_id: u64, wallet: &[u8; 20]) -> (rank: Option<u32>)
        requires
            self.state.wf(),
        ensures
            rank == rank_row(self.state, tournament_id, *wallet),
    {
        if tournament_id < 1 || tournament_id > self.state.tournaments.len() as u64 {
            return None;
        }
        let slot: usize = (tournament_id - 1) as usize;
        match find_entry(&self.state.leaderboards[slot], wallet) {
            Some(i) => Some(self.state.leaderboards[slot][i].rank),
            None => None,
        }
    }

    /// The profile of a wallet.
    pub fn player_of_wallet(&self, wallet: &[u8; 20]) -> (player: Option<Player>)
        requires
            self.state.wf(),
        ensures
            player == player_row(self.state, *wallet),
    {
        match find_player(&self.state.players, wallet) {
            Some(i) => Some(self.state.players[i].clone()),
            None => None,
        }
    }

    /// The aggregate of a wallet in a tournament.
    pub fn participant_of_wallet(
        &self,
        tournament_id: u64,
        wallet: &[u8; 20],
    ) -> (row: Option<TournamentPlayer>)
        requires
            self.state.wf(),
        ensures
            row == participant_row(self.state, tournament_id, *wallet),
    {
        match find_participant(&self.state.tournament_players, tournament_id, wallet) {
            Some(i) => Some(self.state.tournament_players[i].player.clone()),
            None => None,
        }
    }

    /// The prize of a wallet in a tournament.
    pub fn reward_of_wallet(
        &self,
        tournament_id: u64,
        wallet: &[u8; 20],
    ) -> (reward: Option<TournamentReward>)
        requires
            self.state.wf(),
        ensures
            reward == reward_row(self.state, tournament_id, *wallet),
    {
        match find_reward(&self.state.rewards, tournament_id, wallet) {
            Some(i) => Some(self.state.rewards[i]),
            None => None,
        }
    }

    /// The prizes of a wallet over all tournaments, in the order of the
    /// tournament ids.
    pub fn rewards_of_wallet(&self, wallet: &[u8; 20]) -> (rewards: Vec<TournamentReward>)
        requires
            self.state.wf(),
        ensures
            rewards@ == rewards_through(self.state, *wallet, self.state.tournaments@.len()),
    {
        let mut rewards: Vec<TournamentReward> = Vec::new();
        let next: u64 = self.state.next_tournament_id;
        let mut tournament_id: u64 = 1;
        while tournament_id < next
            invariant
                self.state.wf(),
                next == self.state.next_tournament_id,
                1 <= tournament_id <= next,
                rewards@ == rewards_through(self.state, *wallet, (tournament_id - 1) as nat),
            decreases next - tournament_id,
        {
            match self.reward_of_wallet(tournament_id, wallet) {
                Some(reward) => {
                    rewards.push(reward);
                },
                None => {},
            }
            tournament_id += 1;
        }
        rewards
    }

    /// The rank of the wallet with the given address in a tournament.
    pub fn player_rank(&self, tournament_id: u64, owner: &str) -> (rank: Option<u32>)
        requires
            self.state.wf(),
        ensures
            rank == match wallet_of_hex(address_digits(owner@)) {
                Some(wallet) => rank_row(self.state, tournament_id, wallet),
                None => None,
            },
    {
        match parse_wallet_address(owner) {
            Some(wallet) => self.rank_of_wallet(tournament_id, &wallet),
            None => None,
        }
    }

    /// The profile of the wallet with the given address.
    pub fn player(&self, owner: &str) -> (player: Option<Player>)
        requires
            self.state.wf(),
        ensures
            player == match wallet_of_hex(address_digits(owner@)) {
                Some(wallet) => player_row(self.state, wallet),
                None => None,
            },
    {
        match parse_wallet_address(owner) {
            Some(wallet) => self.player_of_wallet(&wallet),
            None => None,
        }
    }

    /// The profile the username leads to.
    pub fn player_by_username(&self, username: &String) -> (player: Option<Player>)
        requires
            self.state.wf(),
        ensures
            player == if has_username(self.state.username_to_wallet@, username@) {
                player_row(self.state, username_owner(self.state.username_to_wallet@, username@))
            } else {
                None
            },
    {
        match find_username(&self.state.username_to_wallet, username) {
            Some(i) => {
                let wallet = self.state.username_to_wallet[i].wallet_address;
                self.player_of_wallet(&wallet)
            },
            None => None,
        }
    }

    /// Whether the address is known: as a wallet with a profile, or else as a
    /// caller identity bound to a wallet.
    pub fn is_registered(&self, owner: &str) -> (registered: bool)
        requires
            self.state.wf(),
        ensures
            registered == match wallet_of_hex(address_digits(owner@)) {
                Some(wallet) => has_player(self.state.players@, wallet),
                None => match owner_of_hex(address_digits(owner@)) {
                    Some(signer) => has_binding(self.state.signer_to_wallet@, signer),
                    None => false,
                },
            },
    {
        match parse_wallet_address(owner) {
            Some(wallet) => find_player(&self.state.players, &wallet).is_some(),
            None => match parse_account_owner(owner) {
                Some(signer) => find_binding(&self.state.signer_to_wallet, &signer).is_some(),
                None => false,
            },
        }
    }

    /// The aggregate of the wallet with the given address in a tournament.
    pub fn tournament_player(
        &self,
        tournament_id: u64,
        owner: &str,
    ) -> (row: Option<TournamentPlayer>)
        requires
            self.state.wf(),
        ensures
            row == match wallet_of_hex(address_digits(owner@)) {
                Some(wallet) => participant_row(self.state, tournament_id, wallet),
                None => None,
            },
    {
        match parse_wallet_address(owner) {
            Some(wallet) => self.participant_of_wallet(tournament_id, &wallet),
            None => None,
        }
    }

    /// The run of that id.
    pub fn run(&self, id: u64) -> (run: Option<GameRun>)
        ensures
            run == run_row(self.state, id),
    {
        if 1 <= id && id <= self.state.runs.len() as u64 {
            let slot: usize = (id - 1) as usize;
            Some(self.state.runs[slot].clone())
        } else {
            None
        }
    }

    /// The latest runs, newest first: at most `limit` of them, or
    /// [`DEFAULT_RECENT_LIMIT`] when no limit is given.
    pub fn recent_runs(&self, limit: Option<u32>) -> (runs: Vec<GameRun>)
        requires
            self.state.wf(),
        ensures
            runs@.len() == first_ids(
                self.state.recent_runs@,
                match limit {
                    Some(limit) => limit as int,
                    None => DEFAULT_RECENT_LIMIT as int,
                },
            ).len(),
            forall|i: int|
                0 <= i < runs@.len() ==> #[trigger] runs@[i] == self.state.runs@[self.state.recent_runs@[i]
                    - 1],
    {
        let limit: usize = match limit {
            Some(limit) => limit as usize,
            None => DEFAULT_RECENT_LIMIT as usize,
        };
        let n: usize = if limit < self.state.recent_runs.len() {
            limit
        } else {
            self.state.recent_runs.len()
        };
        let mut runs: Vec<GameRun> = Vec::new();
        let mut i: usize = 0;
        while i < n
            invariant
                self.state.wf(),
                i <= n,
                n <= self.state.recent_runs@.len(),
                runs@.len() == i,
                forall|k: int|
                    0 <= k < i ==> #[trigger] runs@[k] == self.state.runs@[self.state.recent_runs@[k] - 1],
            decreases n - i,
        {
            let id: u64 = self.state.recent_runs[i];
            let count: usize = self.state.runs.len();
            assert(1 <= id <= count);
            let slot: usize = (id - 1) as usize;
            runs.push(self.state.runs[slot].clone());
            i += 1;
        }
        runs
    }

    /// The prize of the wallet with the given address in a tournament.
    pub fn reward(&self, tournament_id: u64, owner: &str) -> (reward: Option<TournamentReward>)
        requires
            self.state.wf(),
        ensures
            reward == match wallet_of_hex(address_digits(owner@)) {
                Some(wallet) => reward_row(self.state, tournament_id, wallet),
                None => None,
            },
    {
        match parse_wallet_address(owner) {
            Some(wallet) => self.reward_of_wallet(tournament_id, &wallet),
            None => None,
        }
    }

    /// The prizes of the wallet with the given address over all tournaments,
    /// in the order of the tournament ids; none for an address that is no
    /// wallet's.
    pub fn player_rewards(&self, owner: &str) -> (rewards: Vec<TournamentReward>)
        requires
            self.state.wf(),
        ensures
            rewards@ == match wallet_of_hex(address_digits(owner@)) {
                Some(wallet) => rewards_through(self.state, wallet, self.state.tournaments@.len()),
                None => Seq::empty(),
            },
    {
        match parse_wallet_address(owner) {
            Some(wallet) => self.rewards_of_wallet(&wallet),
            None => Vec::new(),
        }
    }
}

/// The first ids of the feed, at most `limit` of them.
pub open spec fn first_ids(recent: Seq<u64>, limit: int) -> Seq<u64> {
    if limit < recent.len() {
        recent.take(limit)
    } else {
        recent
    }
}

} // verus!
