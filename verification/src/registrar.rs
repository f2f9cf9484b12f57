//! The identity registrar: players, their unique usernames, and the caller
//! identities bound to their wallets.

use vstd::prelude::*;
use vstd::slice::slice_subrange;
use crate::contract::LabyrinthTournamentContract;
use crate::keys::same_wallet;
use crate::state::{
    binding_index, distinct_bindings, find_binding, find_player, find_username, has_binding,
    has_player, has_username, leads_to, lemma_leads_to, lemma_player_index, lemma_players_kept,
    lemma_xp_from_rewards_none, lemma_xp_from_runs_none, names_player, names_wf, participants_wf,
    player_index, players_wf, rewards_wf, runs_wf, username_index, xp_from_rewards, xp_from_runs,
    LabyrinthState, SignerBinding, UsernameEntry,
};
use crate::text::{encode_hex, hex_text};
use crate::types::{AccountOwner, Player, Response, TournamentError};

verus! {

/// Whether `player` is the profile a wallet gets on first contact at `now`.
pub open spec fn is_fresh_player(
    player: Player,
    wallet: [u8; 20],
    username: Seq<char>,
    now: u64,
) -> bool {
    &&& player.wallet_address == wallet
    &&& player.username@ == username
    &&& player.total_xp == 0
    &&& player.total_runs == 0
    &&& player.tournaments_played == 0
    &&& player.tournaments_won == 0
    &&& player.best_time_ms is None
    &&& player.registered_at == now
    &&& player.last_active == now
}

/// The username a wallet gets when it is enrolled without one: `Player_` and
/// its first four bytes in hexadecimal.
pub open spec fn default_username(wallet: [u8; 20]) -> Seq<char> {
    "Player_"@ + hex_text(wallet@.subrange(0, 4))
}

/// The wallet the index gives for `username`, meaningful when it holds it.
pub open spec fn username_owner(index: Seq<UsernameEntry>, username: Seq<char>) -> [u8; 20] {
    index[username_index(index, username)].wallet_address
}

/// Whether `username` belongs to a wallet other than `wallet`.
pub open spec fn username_taken(
    index: Seq<UsernameEntry>,
    username: Seq<char>,
    wallet: [u8; 20],
) -> bool {
    has_username(index, username) && username_owner(index, username) != wallet
}

/// The wallet `signer` is bound to, meaningful when it is bound.
pub open spec fn bound_wallet(bindings: Seq<SignerBinding>, signer: AccountOwner) -> [u8; 20] {
    bindings[binding_index(bindings, signer)].wallet_address
}

/// The wallet a caller acts for: the one it is bound to, or, for an unbound
/// caller of the 20-byte form, that address itself.
pub open spec fn resolved_wallet(
    bindings: Seq<SignerBinding>,
    signer: AccountOwner,
) -> Option<[u8; 20]> {
    if has_binding(bindings, signer) {
        Some(bound_wallet(bindings, signer))
    } else {
        match signer {
            AccountOwner::Address20(address) => Some(address),
            _ => None,
        }
    }
}

/// `after` is `before` with `signer` bound to `wallet`: its binding is
/// rewritten in place, or added at the end when it had none.
pub open spec fn bound_to(
    before: Seq<SignerBinding>,
    after: Seq<SignerBinding>,
    signer: AccountOwner,
    wallet: [u8; 20],
) -> bool {
    if has_binding(before, signer) {
        after == before.update(
            binding_index(before, signer),
            SignerBinding { signer, wallet_address: wallet },
        )
    } else {
        after == before.push(SignerBinding { signer, wallet_address: wallet })
    }
}

/// `after` is `before` with a fresh profile for `wallet` under `username`,
/// the username entered in the index at the end, and nothing else touched but
/// the bindings.
pub open spec fn enlisted(
    before: LabyrinthState,
    after: LabyrinthState,
    wallet: [u8; 20],
    username: Seq<char>,
    now: u64,
) -> bool {
    &&& after.players@.len() == before.players@.len() + 1
    &&& after.players@.drop_last() == before.players@
    &&& is_fresh_player(after.players@.last(), wallet, username, now)
    &&& after.username_to_wallet@.len() == before.username_to_wallet@.len() + 1
    &&& after.username_to_wallet@.drop_last() == before.username_to_wallet@
    &&& after.username_to_wallet@.last().username@ == username
    &&& after.username_to_wallet@.last().wallet_address == wallet
    &&& after == (LabyrinthState {
        signer_to_wallet: after.signer_to_wallet,
        players: after.players,
        username_to_wallet: after.username_to_wallet,
        ..before
    })
}

/// Whether `wallet` can be enrolled on first contact: it has a profile
/// already, or its default username is free.
pub open spec fn enrollable(state: LabyrinthState, wallet: [u8; 20]) -> bool {
    has_player(state.players@, wallet) || !has_username(
        state.username_to_wallet@,
        default_username(wallet),
    )
}

/// The wallet a submission of `signer` is made for: the wallet the caller
/// acts for, if it can be enrolled.
pub open spec fn submitting_wallet(
    state: LabyrinthState,
    signer: AccountOwner,
) -> Option<[u8; 20]> {
    match resolved_wallet(state.signer_to_wallet@, signer) {
        Some(wallet) => if enrollable(state, wallet) {
            Some(wallet)
        } else {
            None
        },
        None => None,
    }
}

/// What registering answers: refused where the username belongs to another
/// wallet, accepted otherwise.
pub open spec fn register_result(
    before: LabyrinthState,
    wallet: [u8; 20],
    username: Seq<char>,
) -> Result<Response, TournamentError> {
    if username_taken(before.username_to_wallet@, username, wallet) {
        Err(TournamentError::UsernameTaken)
    } else {
        Ok(Response::PlayerRegistered { wallet_address: wallet })
    }
}

/// How registering takes `before` to `after`. A refusal changes nothing. A
/// wallet that has a profile keeps it as it is and only gets the caller bound
/// to it. Any other wallet gets a fresh profile under `username`.
pub open spec fn register_effect(
    before: LabyrinthState,
    after: LabyrinthState,
    signer: AccountOwner,
    wallet: [u8; 20],
    username: Seq<char>,
    now: u64,
) -> bool {
    if username_taken(before.username_to_wallet@, username, wallet) {
        after == before
    } else if has_player(before.players@, wallet) {
        &&& bound_to(before.signer_to_wallet@, after.signer_to_wallet@, signer, wallet)
        &&& after == (LabyrinthState { signer_to_wallet: after.signer_to_wallet, ..before })
    } else {
        &&& bound_to(before.signer_to_wallet@, after.signer_to_wallet@, signer, wallet)
        &&& enlisted(before, after, wallet, username, now)
    }
}

/// How enrolling a wallet that can be enrolled takes `before` to `after`: the
/// caller is bound to it, and a wallet without a profile gets a fresh one
/// under its default username.
pub open spec fn enroll_effect(
    before: LabyrinthState,
    after: LabyrinthState,
    signer: AccountOwner,
    wallet: [u8; 20],
    now: u64,
) -> bool {
    &&& bound_to(before.signer_to_wallet@, after.signer_to_wallet@, signer, wallet)
    &&& if has_player(before.players@, wallet) {
        after == (LabyrinthState { signer_to_wallet: after.signer_to_wallet, ..before })
    } else {
        enlisted(before, after, wallet, default_username(wallet), now)
    }
}

/// Binds `signer` to `wallet`, over any earlier binding of it.
pub fn bind_signer(bindings: &mut Vec<SignerBinding>, signer: AccountOwner, wallet: [u8; 20])
    requires
        distinct_bindings(old(bindings)@),
    ensures
        bound_to(old(bindings)@, final(bindings)@, signer, wallet),
        distinct_bindings(final(bindings)@),
        has_binding(final(bindings)@, signer),
        bound_wallet(final(bindings)@, signer) == wallet,
{
    match find_binding(bindings, &signer) {
        Some(i) => {
            bindings[i].wallet_address = wallet;
            assert(bindings@ =~= old(bindings)@.update(
                i as int,
                SignerBinding { signer, wallet_address: wallet },
            ));
            assert(bindings@[i as int].signer == signer);
        },
        None => {
            bindings.push(SignerBinding { signer, wallet_address: wallet });
            assert(bindings@[bindings@.len() - 1].signer == signer);
        },
    }
    proof {
        let k = binding_index(bindings@, signer);
        assert(bindings@[k].signer == signer);
    }
}

/// The default username of a wallet.
pub fn default_username_for(wallet: &[u8; 20]) -> (username: String)
    ensures
        username@ == default_username(*wallet),
{
    let head = slice_subrange(wallet.as_slice(), 0, 4);
    let digits = encode_hex(head);
    let mut username = "Player_".to_owned();
    username.append(digits.as_str());
    username
}

impl LabyrinthTournamentContract {
    /// The wallet `signer` is bound to, if any.
    pub fn get_wallet_for_signer(&self, signer: &AccountOwner) -> (wallet: Option<[u8; 20]>)
        requires
            self.state.wf(),
        ensures
            wallet == if has_binding(self.state.signer_to_wallet@, *signer) {
                Some(bound_wallet(self.state.signer_to_wallet@, *signer))
            } else {
                None
            },
    {
        match find_binding(&self.state.signer_to_wallet, signer) {
            Some(i) => Some(self.state.signer_to_wallet[i].wallet_address),
            None => None,
        }
    }

    /// The wallet a submission of `signer` is made for, if it can be told.
    pub fn resolve_wallet(&self, signer: &AccountOwner) -> (wallet: Option<[u8; 20]>)
        requires
            self.state.wf(),
        ensures
            wallet == resolved_wallet(self.state.signer_to_wallet@, *signer),
    {
        match self.get_wallet_for_signer(signer) {
            Some(wallet) => Some(wallet),
            None => match signer {
                AccountOwner::Address20(address) => Some(*address),
                _ => None,
            },
        }
    }

    /// The wallet a submission of `signer` is made for, if there is one: the
    /// wallet the caller acts for, unless it has no profile and its default
    /// username belongs to another wallet.
    pub fn resolve_submitter(&self, signer: &AccountOwner) -> (wallet: Option<[u8; 20]>)
        requires
            self.state.wf(),
        ensures
            wallet == submitting_wallet(self.state, *signer),
    {
        match self.resolve_wallet(signer) {
            Some(wallet) => {
                if find_player(&self.state.players, &wallet).is_some() {
                    return Some(wallet);
                }
                let username = default_username_for(&wallet);
                if find_username(&self.state.username_to_wallet, &username).is_some() {
                    None
                } else {
                    Some(wallet)
                }
            },
            None => None,
        }
    }

    /// Gives `wallet`, which has no profile, a fresh one under `username`,
    /// which is free, and enters the username in the index.
    pub(crate) fn enlist(&mut self, wallet: [u8; 20], username: String, now: u64)
        requires
            old(self).state.wf(),
            !has_player(old(self).state.players@, wallet),
            !has_username(old(self).state.username_to_wallet@, username@),
        ensures
            final(self).state.wf(),
            enlisted(old(self).state, final(self).state, wallet, username@, now),
            final(self).state.signer_to_wallet == old(self).state.signer_to_wallet,
            has_player(final(self).state.players@, wallet),
    {
        let name = username.clone();
        let player = Player {
            wallet_address: wallet,
            username,
            total_xp: 0,
            total_runs: 0,
            tournaments_played: 0,
            tournaments_won: 0,
            best_time_ms: None,
            registered_at: now,
            last_active: now,
        };
        self.state.players.push(player);
        self.state.username_to_wallet.push(UsernameEntry { username: name, wallet_address: wallet });
        proof {
            assert(self.state.players@.drop_last() =~= old(self).state.players@);
            assert(self.state.username_to_wallet@.drop_last() =~= old(self).state.username_to_wallet@);
            lemma_enlisted_keeps_wf(old(self).state, self.state, wallet, name@, now);
            assert(self.state.players@[self.state.players@.len() - 1].wallet_address == wallet);
        }
    }

    /// Binds the caller to `wallet` and returns the wallet's profile, which is
    /// created under the default username when the wallet had none.
    ///
    /// Refused with `NotRegistered`, and nothing changes, where the wallet has
    /// no profile and its default username belongs to another wallet: such a
    /// wallet has to be registered under a username of its own.
    pub fn get_or_create_player(
        &mut self,
        signer: AccountOwner,
        wallet: [u8; 20],
        now: u64,
    ) -> (result: Result<Player, TournamentError>)
        requires
            old(self).state.wf(),
        ensures
            final(self).state.wf(),
            !enrollable(old(self).state, wallet) ==> result == Err::<Player, TournamentError>(
                TournamentError::NotRegistered,
            ) && final(self).state == old(self).state,
            enrollable(old(self).state, wallet) ==> {
                &&& enroll_effect(old(self).state, final(self).state, signer, wallet, now)
                &&& has_player(final(self).state.players@, wallet)
                &&& result == Ok::<Player, TournamentError>(
                    final(self).state.players@[player_index(final(self).state.players@, wallet)],
                )
            },
    {
        let found = match find_player(&self.state.players, &wallet) {
            Some(i) => i,
            None => {
                let username = default_username_for(&wallet);
                if find_username(&self.state.username_to_wallet, &username).is_some() {
                    return Err(TournamentError::NotRegistered);
                }
                self.enlist(wallet, username, now);
                self.state.players.len() - 1
            },
        };
        bind_signer(&mut self.state.signer_to_wallet, signer, wallet);
        proof {
            lemma_player_index(self.state.players@, wallet, found as int);
        }
        Ok(self.state.players[found].clone())
    }

    /// Registers `wallet` under `username` and binds the caller to it.
    ///
    /// Refused with `UsernameTaken` where the username belongs to another
    /// wallet. A wallet that has a profile keeps it unchanged, whatever the
    /// username given.
    pub fn register_player(
        &mut self,
        signer: AccountOwner,
        wallet_address: [u8; 20],
        username: String,
        now: u64,
    ) -> (result: Result<Response, TournamentError>)
        requires
            old(self).state.wf(),
        ensures
            final(self).state.wf(),
            result == register_result(old(self).state, wallet_address, username@),
            register_effect(old(self).state, final(self).state, signer, wallet_address, username@, now),
    {
        match find_username(&self.state.username_to_wallet, &username) {
            Some(i) => {
                if !same_wallet(&self.state.username_to_wallet[i].wallet_address, &wallet_address) {
                    return Err(TournamentError::UsernameTaken);
                }
            },
            None => {},
        }
        if find_player(&self.state.players, &wallet_address).is_none() {
            proof {
                lemma_name_of_missing_wallet_is_free(self.state, wallet_address, username@);
            }
            self.enlist(wallet_address, username, now);
        }
        bind_signer(&mut self.state.signer_to_wallet, signer, wallet_address);
        Ok(Response::PlayerRegistered { wallet_address })
    }
}

/// A username that the index gives to a wallet without a profile is not in
/// the index at all.
pub proof fn lemma_name_of_missing_wallet_is_free(
    state: LabyrinthState,
    wallet: [u8; 20],
    username: Seq<char>,
)
    requires
        state.wf(),
        !has_player(state.players@, wallet),
        !username_taken(state.username_to_wallet@, username, wallet),
    ensures
        !has_username(state.username_to_wallet@, username),
{
    let ix = state.username_to_wallet@;
    if has_username(ix, username) {
        let k = username_index(ix, username);
        assert(0 <= k < ix.len() && ix[k].username@ == username);
        assert(names_player(state.players@, ix[k].wallet_address, ix[k].username@));
    }
}

/// A fresh profile under a free username, entered in the index, leaves a
/// well-formed store well-formed.
pub proof fn lemma_enlisted_keeps_wf(
    before: LabyrinthState,
    after: LabyrinthState,
    wallet: [u8; 20],
    username: Seq<char>,
    now: u64,
)
    requires
        before.wf(),
        !has_player(before.players@, wallet),
        !has_username(before.username_to_wallet@, username),
        enlisted(before, after, wallet, username, now),
        after.signer_to_wallet@ == before.signer_to_wallet@,
    ensures
        after.wf(),
{
    let ps = before.players@;
    let qs = after.players@;
    let last = qs.len() - 1;
    assert forall|i: int| 0 <= i < ps.len() implies #[trigger] qs[i] == ps[i] by {
        assert(qs.drop_last()[i] == qs[i]);
    }
    assert(qs[last].wallet_address == wallet);
    lemma_players_kept(ps, qs);
    assert forall|i: int| 0 <= i < before.runs@.len() implies (#[trigger] before.runs@[i]).wallet_address
        != wallet by {
        assert(has_player(ps, before.runs@[i].wallet_address));
    }
    lemma_xp_from_runs_none(before.runs@, wallet);
    assert forall|i: int| 0 <= i < before.rewards@.len() implies (
    #[trigger] before.rewards@[i]).wallet_address != wallet by {
        assert(has_player(ps, before.rewards@[i].wallet_address));
    }
    lemma_xp_from_rewards_none(before.rewards@, wallet);
    assert(players_wf(qs, after.runs@, after.rewards@)) by {
        assert forall|i: int, j: int| 0 <= i < j < qs.len() implies (#[trigger] qs[i]).wallet_address != (
        #[trigger] qs[j]).wallet_address by {
            if j == last {
                assert(has_player(ps, ps[i].wallet_address));
            }
        }
        assert forall|i: int| 0 <= i < qs.len() implies (#[trigger] qs[i]).total_xp == xp_from_runs(
            after.runs@,
            qs[i].wallet_address,
        ) + xp_from_rewards(after.rewards@, qs[i].wallet_address) && qs[i].total_runs
            <= after.runs@.len() by {
            if i < last {
                assert(qs[i] == ps[i]);
            }
        }
    }
    let ix = before.username_to_wallet@;
    let jx = after.username_to_wallet@;
    let end = jx.len() - 1;
    assert forall|i: int| 0 <= i < ix.len() implies #[trigger] jx[i] == ix[i] by {
        assert(jx.drop_last()[i] == jx[i]);
    }
    assert(names_wf(jx, qs)) by {
        assert forall|i: int, j: int| 0 <= i < j < qs.len() implies (#[trigger] qs[i]).username@ != (
        #[trigger] qs[j]).username@ by {
            if j == last {
                assert(leads_to(ix, ps[i].username@, ps[i].wallet_address));
                lemma_leads_to(ix, ps[i].username@, ps[i].wallet_address);
            } else {
                assert(ps[i].username@ != ps[j].username@);
            }
        }
        assert forall|i: int, j: int| 0 <= i < j < jx.len() implies (#[trigger] jx[i]).username@ != (
        #[trigger] jx[j]).username@ by {
            if j == end {
                assert(ix[i].username@ == jx[i].username@);
            } else {
                assert(ix[i].username@ != ix[j].username@);
            }
        }
        assert forall|i: int| 0 <= i < jx.len() implies names_player(
            qs,
            (#[trigger] jx[i]).wallet_address,
            jx[i].username@,
        ) by {
            if i < end {
                assert(names_player(ps, ix[i].wallet_address, ix[i].username@));
            } else {
                assert(qs[last].wallet_address == wallet && qs[last].username@ == username);
            }
        }
        assert forall|j: int| 0 <= j < qs.len() implies leads_to(
            jx,
            (#[trigger] qs[j]).username@,
            qs[j].wallet_address,
        ) by {
            if j < last {
                assert(leads_to(ix, ps[j].username@, ps[j].wallet_address));
                let k = choose|k: int|
                    0 <= k < ix.len() && (#[trigger] ix[k]).username@ == ps[j].username@
                        && ix[k].wallet_address == ps[j].wallet_address;
                assert(jx[k] == ix[k]);
            } else {
                assert(jx[end].username@ == username && jx[end].wallet_address == wallet);
            }
        }
    }
    assert(runs_wf(after.runs@, after.next_run_id, after.tournaments@.len(), qs)) by {
        assert forall|i: int| 0 <= i < after.runs@.len() implies has_player(
            qs,
            (#[trigger] after.runs@[i]).wallet_address,
        ) by {
            assert(has_player(ps, before.runs@[i].wallet_address));
        }
    }
    assert(participants_wf(after.tournament_players@, after.tournaments@.len(), qs)) by {
        assert forall|i: int| 0 <= i < after.tournament_players@.len() implies has_player(
            qs,
            (#[trigger] after.tournament_players@[i]).player.wallet_address,
        ) by {
            assert(has_player(ps, before.tournament_players@[i].player.wallet_address));
        }
    }
    assert(rewards_wf(after.rewards@, after.tournaments@, qs)) by {
        assert forall|i: int| 0 <= i < after.rewards@.len() implies has_player(
            qs,
            (#[trigger] after.rewards@[i]).wallet_address,
        ) by {
            assert(has_player(ps, before.rewards@[i].wallet_address));
        }
    }
}

} // verus!
