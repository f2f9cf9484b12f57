//! The leaderboard engine: a ranking of at most [`LEADERBOARD_CAPACITY`] entries
//! per tournament, ordered by best time, ties in the order the entries arrived.

use vstd::prelude::*;
use crate::keys::same_wallet;
use crate::types::{LeaderboardEntry, TournamentPlayer};

verus! {

/// The most entries a leaderboard keeps.
pub const LEADERBOARD_CAPACITY: usize = 100;

/// Best times never decrease from one line to the next.
pub open spec fn sorted_by_time(s: Seq<LeaderboardEntry>) -> bool {
    forall|i: int, j: int| 0 <= i < j < s.len() ==> s[i].best_time_ms <= s[j].best_time_ms
}

/// Each line's rank is its one-based position.
pub open spec fn ranks_dense(s: Seq<LeaderboardEntry>) -> bool {
    forall|i: int| 0 <= i < s.len() ==> (#[trigger] s[i]).rank == i + 1
}

/// No wallet holds two lines.
pub open spec fn distinct_wallets(s: Seq<LeaderboardEntry>) -> bool {
    forall|i: int, j: int|
        0 <= i < j < s.len() ==> (#[trigger] s[i]).wallet_address != (#[trigger] s[j]).wallet_address
}

/// What every stored leaderboard satisfies.
pub open spec fn board_wf(s: Seq<LeaderboardEntry>) -> bool {
    &&& s.len() <= LEADERBOARD_CAPACITY
    &&& sorted_by_time(s)
    &&& ranks_dense(s)
    &&& distinct_wallets(s)
}

/// Whether some line belongs to `wallet`.
pub open spec fn lists_wallet(s: Seq<LeaderboardEntry>, wallet: [u8; 20]) -> bool {
    exists|i: int| 0 <= i < s.len() && (#[trigger] s[i]).wallet_address == wallet
}

/// Whether line `i` is the first one that belongs to `wallet`.
pub open spec fn is_first_of(s: Seq<LeaderboardEntry>, wallet: [u8; 20], i: int) -> bool {
    &&& 0 <= i < s.len()
    &&& s[i].wallet_address == wallet
    &&& forall|j: int| 0 <= j < i ==> (#[trigger] s[j]).wallet_address != wallet
}

/// The position of the first line of `wallet`, meaningful when there is one.
pub open spec fn position_of(s: Seq<LeaderboardEntry>, wallet: [u8; 20]) -> int {
    choose|i: int| is_first_of(s, wallet, i)
}

/// The rank `wallet` holds: that of its line, or 0 when it has none.
pub open spec fn rank_of(s: Seq<LeaderboardEntry>, wallet: [u8; 20]) -> u32 {
    if lists_wallet(s, wallet) {
        s[position_of(s, wallet)].rank
    } else {
        0
    }
}

/// The line a player gets on first entering the ranking; its rank is set later.
pub open spec fn entry_from(snapshot: TournamentPlayer) -> LeaderboardEntry {
    LeaderboardEntry {
        rank: 0,
        wallet_address: snapshot.wallet_address,
        username: snapshot.username,
        best_time_ms: snapshot.best_time_ms,
        best_score: snapshot.best_score,
        total_runs: snapshot.total_runs,
        total_xp: snapshot.total_xp_earned,
    }
}

/// A line brought up to date: score and totals are the snapshot's; the best
/// time is taken over only where it is lower than the line's own.
pub open spec fn refreshed(
    entry: LeaderboardEntry,
    snapshot: TournamentPlayer,
) -> LeaderboardEntry {
    LeaderboardEntry {
        best_time_ms: if snapshot.best_time_ms < entry.best_time_ms {
            snapshot.best_time_ms
        } else {
            entry.best_time_ms
        },
        best_score: snapshot.best_score,
        total_runs: snapshot.total_runs,
        total_xp: snapshot.total_xp_earned,
        ..entry
    }
}

/// The ranking with the snapshot's values written into the player's line, or
/// with a new line at the end when the player had none.
pub open spec fn merged(
    s: Seq<LeaderboardEntry>,
    snapshot: TournamentPlayer,
) -> Seq<LeaderboardEntry> {
    if lists_wallet(s, snapshot.wallet_address) {
        let i = position_of(s, snapshot.wallet_address);
        s.update(i, refreshed(s[i], snapshot))
    } else {
        s.push(entry_from(snapshot))
    }
}

/// Where a line with best time `time` goes: behind the last line that is not
/// slower, found from the end.
pub open spec fn insert_pos(s: Seq<LeaderboardEntry>, time: u64) -> int
    decreases s.len(),
{
    if s.len() == 0 {
        0
    } else if s.last().best_time_ms <= time {
        s.len() as int
    } else {
        insert_pos(s.drop_last(), time)
    }
}

/// The lines ordered by best time, each taken in turn and put behind those that
/// are not slower: lines with equal times keep their order.
pub open spec fn stable_sort(s: Seq<LeaderboardEntry>) -> Seq<LeaderboardEntry>
    decreases s.len(),
{
    if s.len() == 0 {
        s
    } else {
        let head = stable_sort(s.drop_last());
        head.insert(insert_pos(head, s.last().best_time_ms), s.last())
    }
}

/// The first [`LEADERBOARD_CAPACITY`] lines.
pub open spec fn top(s: Seq<LeaderboardEntry>) -> Seq<LeaderboardEntry> {
    if s.len() > LEADERBOARD_CAPACITY {
        s.take(LEADERBOARD_CAPACITY as int)
    } else {
        s
    }
}

/// The lines with each rank rewritten to the one-based position.
pub open spec fn reranked(s: Seq<LeaderboardEntry>) -> Seq<LeaderboardEntry> {
    Seq::new(s.len(), |i: int| LeaderboardEntry { rank: (i + 1) as u32, ..s[i] })
}

/// The ranking after a player's snapshot has been taken in: merged, ordered,
/// cut to capacity and ranked anew.
pub open spec fn updated_board(
    s: Seq<LeaderboardEntry>,
    snapshot: TournamentPlayer,
) -> Seq<LeaderboardEntry> {
    reranked(top(stable_sort(merged(s, snapshot))))
}

/// The insertion position lies within the sequence; every line before it that
/// the scan passed is slower, and the line just before it is not.
pub proof fn lemma_insert_pos(s: Seq<LeaderboardEntry>, time: u64)
    ensures
        0 <= insert_pos(s, time) <= s.len(),
        forall|k: int| insert_pos(s, time) <= k < s.len() ==> (#[trigger] s[k]).best_time_ms > time,
        insert_pos(s, time) > 0 ==> s[insert_pos(s, time) - 1].best_time_ms <= time,
    decreases s.len(),
{
    if s.len() > 0 && s.last().best_time_ms > time {
        let init = s.drop_last();
        lemma_insert_pos(init, time);
        assert forall|k: int| insert_pos(s, time) <= k < s.len() implies (#[trigger] s[k]).best_time_ms
            > time by {
            if k < init.len() {
                assert(s[k] == init[k]);
            }
        }
    }
}

/// Ordering keeps the number of lines and yields ascending best times.
pub proof fn lemma_stable_sort_ordered(s: Seq<LeaderboardEntry>)
    ensures
        stable_sort(s).len() == s.len(),
        sorted_by_time(stable_sort(s)),
    decreases s.len(),
{
    if s.len() > 0 {
        let last = s.last();
        let head = stable_sort(s.drop_last());
        lemma_stable_sort_ordered(s.drop_last());
        lemma_insert_pos(head, last.best_time_ms);
        let p = insert_pos(head, last.best_time_ms);
        let out = head.insert(p, last);
        assert forall|i: int, j: int| 0 <= i < j < out.len() implies out[i].best_time_ms
            <= out[j].best_time_ms by {
            if j < p {
                assert(out[i] == head[i] && out[j] == head[j]);
            } else if j == p {
                assert(out[i] == head[i]);
                if p > 0 {
                    assert(head[i].best_time_ms <= head[p - 1].best_time_ms);
                }
            } else if i < p {
                assert(out[i] == head[i] && out[j] == head[j - 1]);
            } else if i == p {
                assert(out[j] == head[j - 1]);
                assert(head[j - 1].best_time_ms > last.best_time_ms);
            } else {
                assert(out[i] == head[i - 1] && out[j] == head[j - 1]);
            }
        }
    }
}

/// Ordering keeps the lines themselves: each line of the input is in the
/// output, and each line of the output is in the input.
pub proof fn lemma_stable_sort_same_lines(s: Seq<LeaderboardEntry>)
    ensures
        forall|i: int| 0 <= i < s.len() ==> stable_sort(s).contains(#[trigger] s[i]),
        forall|i: int| 0 <= i < stable_sort(s).len() ==> s.contains(#[trigger] stable_sort(s)[i]),
    decreases s.len(),
{
    if s.len() > 0 {
        let init = s.drop_last();
        let last = s.last();
        let head = stable_sort(init);
        lemma_stable_sort_same_lines(init);
        lemma_stable_sort_ordered(init);
        lemma_insert_pos(head, last.best_time_ms);
        let p = insert_pos(head, last.best_time_ms);
        let out = head.insert(p, last);
        assert forall|i: int| 0 <= i < s.len() implies out.contains(#[trigger] s[i]) by {
            if i == s.len() - 1 {
                assert(out[p] == s[i]);
            } else {
                assert(init[i] == s[i]);
                assert(head.contains(init[i]));
                let k = choose|k: int| 0 <= k < head.len() && head[k] == init[i];
                if k < p {
                    assert(out[k] == s[i]);
                } else {
                    assert(out[k + 1] == s[i]);
                }
            }
        }
        assert forall|i: int| 0 <= i < out.len() implies s.contains(#[trigger] out[i]) by {
            if i == p {
                assert(s[s.len() - 1] == out[i]);
            } else {
                let k = if i < p {
                    i
                } else {
                    i - 1
                };
                assert(out[i] == head[k]);
                assert(init.contains(head[k]));
                let m = choose|m: int| 0 <= m < init.len() && init[m] == head[k];
                assert(s[m] == out[i]);
            }
        }
    }
}

/// Ordering leaves no wallet twice where none was.
pub proof fn lemma_stable_sort_distinct(s: Seq<LeaderboardEntry>)
    requires
        distinct_wallets(s),
    ensures
        distinct_wallets(stable_sort(s)),
    decreases s.len(),
{
    if s.len() > 0 {
        let init = s.drop_last();
        let last = s.last();
        let head = stable_sort(init);
        assert forall|i: int, j: int| 0 <= i < j < init.len() implies (#[trigger] init[i]).wallet_address
            != (#[trigger] init[j]).wallet_address by {
            assert(init[i] == s[i] && init[j] == s[j]);
        }
        lemma_stable_sort_distinct(init);
        lemma_stable_sort_same_lines(init);
        lemma_stable_sort_ordered(init);
        lemma_insert_pos(head, last.best_time_ms);
        let p = insert_pos(head, last.best_time_ms);
        let out = head.insert(p, last);
        assert forall|k: int| 0 <= k < head.len() implies (#[trigger] head[k]).wallet_address
            != last.wallet_address by {
            assert(init.contains(head[k]));
            let m = choose|m: int| 0 <= m < init.len() && init[m] == head[k];
            assert(s[m] == head[k]);
            assert(s[m].wallet_address != s[s.len() - 1].wallet_address);
        }
        assert forall|i: int, j: int| 0 <= i < j < out.len() implies (#[trigger] out[i]).wallet_address
            != (#[trigger] out[j]).wallet_address by {
            let a = if i < p {
                i
            } else {
                i - 1
            };
            let b = if j < p {
                j
            } else {
                j - 1
            };
            if i == p {
                assert(out[j] == head[b]);
            } else if j == p {
                assert(out[i] == head[a]);
            } else {
                assert(out[i] == head[a] && out[j] == head[b]);
                assert(a < b);
            }
        }
    }
}

/// Ordering keeps the number of lines and the lines themselves, leaves no
/// wallet twice where none was, and yields ascending best times.
pub proof fn lemma_stable_sort(s: Seq<LeaderboardEntry>)
    ensures
        stable_sort(s).len() == s.len(),
        sorted_by_time(stable_sort(s)),
        forall|i: int| 0 <= i < s.len() ==> stable_sort(s).contains(#[trigger] s[i]),
        forall|i: int| 0 <= i < s.len() ==> s.contains(#[trigger] stable_sort(s)[i]),
        distinct_wallets(s) ==> distinct_wallets(stable_sort(s)),
{
    lemma_stable_sort_ordered(s);
    lemma_stable_sort_same_lines(s);
    if distinct_wallets(s) {
        lemma_stable_sort_distinct(s);
    }
}

/// Taking a snapshot in never gives a wallet a second line.
pub proof fn lemma_merged(s: Seq<LeaderboardEntry>, snapshot: TournamentPlayer)
    ensures
        distinct_wallets(s) ==> distinct_wallets(merged(s, snapshot)),
        lists_wallet(merged(s, snapshot), snapshot.wallet_address),
        forall|w: [u8; 20]|
            lists_wallet(merged(s, snapshot), w) ==> lists_wallet(s, w) || w == snapshot.wallet_address,
{
    let w = snapshot.wallet_address;
    let m = merged(s, snapshot);
    if lists_wallet(s, w) {
        let k = choose|k: int| 0 <= k < s.len() && (#[trigger] s[k]).wallet_address == w;
        lemma_first_exists(s, w, k);
        let i = position_of(s, w);
        assert(is_first_of(s, w, i));
        assert(m[i].wallet_address == w);
        assert forall|x: [u8; 20]| lists_wallet(m, x) implies lists_wallet(s, x) || x == w by {
            let j = choose|j: int| 0 <= j < m.len() && (#[trigger] m[j]).wallet_address == x;
            assert(s[j].wallet_address == x);
        }
        if distinct_wallets(s) {
            assert forall|a: int, b: int| 0 <= a < b < m.len() implies (#[trigger] m[a]).wallet_address
                != (#[trigger] m[b]).wallet_address by {
                assert(m[a].wallet_address == s[a].wallet_address);
                assert(m[b].wallet_address == s[b].wallet_address);
            }
        }
    } else {
        assert(m[s.len() as int].wallet_address == w);
        assert forall|x: [u8; 20]| lists_wallet(m, x) implies lists_wallet(s, x) || x == w by {
            let j = choose|j: int| 0 <= j < m.len() && (#[trigger] m[j]).wallet_address == x;
            if j < s.len() {
                assert(s[j].wallet_address == x);
            }
        }
        if distinct_wallets(s) {
            assert forall|a: int, b: int| 0 <= a < b < m.len() implies (#[trigger] m[a]).wallet_address
                != (#[trigger] m[b]).wallet_address by {
                assert(m[a] == s[a]);
                if b < s.len() {
                    assert(m[b] == s[b]);
                }
            }
        }
    }
}

/// Where some line belongs to the wallet, one of them is the first.
pub proof fn lemma_first_exists(s: Seq<LeaderboardEntry>, wallet: [u8; 20], k: int)
    requires
        0 <= k < s.len(),
        s[k].wallet_address == wallet,
    ensures
        is_first_of(s, wallet, position_of(s, wallet)),
        position_of(s, wallet) <= k,
    decreases k,
{
    if forall|j: int| 0 <= j < k ==> (#[trigger] s[j]).wallet_address != wallet {
        assert(is_first_of(s, wallet, k));
    } else {
        let j = choose|j: int| 0 <= j < k && (#[trigger] s[j]).wallet_address == wallet;
        lemma_first_exists(s, wallet, j);
    }
}

/// The first line of a wallet is at one position only.
pub proof fn lemma_first_unique(s: Seq<LeaderboardEntry>, wallet: [u8; 20], i: int)
    requires
        is_first_of(s, wallet, i),
    ensures
        position_of(s, wallet) == i,
        lists_wallet(s, wallet),
{
    let p = position_of(s, wallet);
    assert(is_first_of(s, wallet, p));
    if p < i {
        assert(s[p].wallet_address != wallet);
    }
    if i < p {
        assert(s[i].wallet_address != wallet);
    }
}

/// Taking a snapshot into a ranking without repeated wallets gives a
/// well-formed ranking: at most the capacity, ascending best times, ranks
/// `1..=n`, no wallet twice. It lists no wallet that was not listed before,
/// but for the snapshot's.
pub proof fn lemma_updated_board(s: Seq<LeaderboardEntry>, snapshot: TournamentPlayer)
    requires
        distinct_wallets(s),
    ensures
        board_wf(updated_board(s, snapshot)),
        forall|w: [u8; 20]|
            lists_wallet(updated_board(s, snapshot), w) ==> lists_wallet(s, w) || w
                == snapshot.wallet_address,
{
    let m = merged(s, snapshot);
    let sorted = stable_sort(m);
    let cut = top(sorted);
    let out = reranked(cut);
    lemma_merged(s, snapshot);
    lemma_stable_sort(m);
    assert forall|i: int| 0 <= i < cut.len() implies cut[i] == sorted[i] by {}
    assert forall|i: int| 0 <= i < out.len() implies (#[trigger] out[i]).wallet_address
        == sorted[i].wallet_address && out[i].best_time_ms == sorted[i].best_time_ms && out[i].rank == i
        + 1 by {
        assert(out[i] == LeaderboardEntry { rank: (i + 1) as u32, ..cut[i] });
    }
    assert forall|i: int, j: int| 0 <= i < j < out.len() implies (#[trigger] out[i]).wallet_address
        != (#[trigger] out[j]).wallet_address by {
        assert(sorted[i].wallet_address != sorted[j].wallet_address);
    }
    assert forall|i: int, j: int| 0 <= i < j < out.len() implies out[i].best_time_ms
        <= out[j].best_time_ms by {
        assert(sorted[i].best_time_ms <= sorted[j].best_time_ms);
    }
    assert forall|w: [u8; 20]| lists_wallet(out, w) implies lists_wallet(s, w) || w
        == snapshot.wallet_address by {
        let i = choose|i: int| 0 <= i < out.len() && (#[trigger] out[i]).wallet_address == w;
        assert(m.contains(sorted[i]));
        let k = choose|k: int| 0 <= k < m.len() && m[k] == sorted[i];
        assert(m[k].wallet_address == w);
        assert(lists_wallet(m, w));
    }
}

/// Whether two lines agree in everything but the rank.
pub open spec fn same_line(a: LeaderboardEntry, b: LeaderboardEntry) -> bool {
    a == (LeaderboardEntry { rank: a.rank, ..b })
}

/// The line the snapshot's player has once the snapshot is merged in.
pub open spec fn merged_line(
    s: Seq<LeaderboardEntry>,
    snapshot: TournamentPlayer,
) -> LeaderboardEntry {
    if lists_wallet(s, snapshot.wallet_address) {
        refreshed(s[position_of(s, snapshot.wallet_address)], snapshot)
    } else {
        entry_from(snapshot)
    }
}

/// How long the ranking is once a snapshot is taken in: one line more where
/// the player had none, cut to the capacity.
pub open spec fn updated_len(s: Seq<LeaderboardEntry>, snapshot: TournamentPlayer) -> int {
    let merged = if lists_wallet(s, snapshot.wallet_address) {
        s.len() as int
    } else {
        s.len() as int + 1
    };
    if merged > LEADERBOARD_CAPACITY {
        LEADERBOARD_CAPACITY as int
    } else {
        merged
    }
}

/// What the lines of a ranking are once a snapshot is taken in: the line of
/// the snapshot's player is its merged line, every other line is a line that
/// stood before, with its rank rewritten at most; and unless the ranking was
/// cut, every wallet that was listed still is, and so is the snapshot's.
pub proof fn lemma_updated_board_lines(s: Seq<LeaderboardEntry>, snapshot: TournamentPlayer)
    requires
        distinct_wallets(s),
    ensures
        merged(s, snapshot).len() == if lists_wallet(s, snapshot.wallet_address) {
            s.len()
        } else {
            s.len() + 1
        },
        updated_board(s, snapshot).len() == updated_len(s, snapshot),
        forall|i: int|
            0 <= i < updated_board(s, snapshot).len() ==> {
                let line = #[trigger] updated_board(s, snapshot)[i];
                if line.wallet_address == snapshot.wallet_address {
                    same_line(line, merged_line(s, snapshot))
                } else {
                    exists|k: int| 0 <= k < s.len() && same_line(line, #[trigger] s[k])
                }
            },
        merged(s, snapshot).len() <= LEADERBOARD_CAPACITY ==> lists_wallet(
            updated_board(s, snapshot),
            snapshot.wallet_address,
        ) && forall|w: [u8; 20]| #[trigger]
            lists_wallet(s, w) ==> lists_wallet(updated_board(s, snapshot), w),
{
    let w = snapshot.wallet_address;
    let m = merged(s, snapshot);
    let sorted = stable_sort(m);
    let cut = top(sorted);
    let out = reranked(cut);
    lemma_merged(s, snapshot);
    lemma_stable_sort(m);
    if lists_wallet(s, w) {
        let k = choose|k: int| 0 <= k < s.len() && (#[trigger] s[k]).wallet_address == w;
        lemma_first_exists(s, w, k);
    }
    assert forall|i: int| 0 <= i < out.len() implies {
        let line = #[trigger] out[i];
        if line.wallet_address == w {
            same_line(line, merged_line(s, snapshot))
        } else {
            exists|k: int| 0 <= k < s.len() && same_line(line, #[trigger] s[k])
        }
    } by {
        assert(out[i] == LeaderboardEntry { rank: (i + 1) as u32, ..cut[i] });
        assert(cut[i] == sorted[i]);
        assert(m.contains(sorted[i]));
        let k = choose|k: int| 0 <= k < m.len() && m[k] == sorted[i];
        if lists_wallet(s, w) {
            let pos = position_of(s, w);
            if k != pos {
                assert(m[k] == s[k]);
                if k < pos {
                    assert(s[k].wallet_address != s[pos].wallet_address);
                } else {
                    assert(s[pos].wallet_address != s[k].wallet_address);
                }
                assert(same_line(out[i], s[k]));
            }
        } else {
            if k < s.len() {
                assert(m[k] == s[k]);
                assert(same_line(out[i], s[k]));
            }
        }
    }
    if m.len() <= LEADERBOARD_CAPACITY {
        assert(cut == sorted);
        assert forall|x: [u8; 20]| lists_wallet(m, x) implies lists_wallet(out, x) by {
            let k = choose|k: int| 0 <= k < m.len() && (#[trigger] m[k]).wallet_address == x;
            assert(sorted.contains(m[k]));
            let i = choose|i: int| 0 <= i < sorted.len() && sorted[i] == m[k];
            assert(out[i] == LeaderboardEntry { rank: (i + 1) as u32, ..cut[i] });
            assert(out[i].wallet_address == x);
        }
        assert forall|x: [u8; 20]| #[trigger] lists_wallet(s, x) implies lists_wallet(out, x) by {
            let k = choose|k: int| 0 <= k < s.len() && (#[trigger] s[k]).wallet_address == x;
            assert(m[k].wallet_address == x);
            assert(lists_wallet(m, x));
        }
    }
}

/// The position of the first line of `wallet`, if it has one.
pub fn find_entry(board: &Vec<LeaderboardEntry>, wallet: &[u8; 20]) -> (found: Option<usize>)
    ensures
        found is Some <==> lists_wallet(board@, *wallet),
        found is Some ==> found.unwrap() == position_of(board@, *wallet) && is_first_of(
            board@,
            *wallet,
            found.unwrap() as int,
        ),
{
    let mut i: usize = 0;
    while i < board.len()
        invariant
            i <= board.len(),
            forall|j: int| 0 <= j < i ==> (#[trigger] board@[j]).wallet_address != *wallet,
        decreases board.len() - i,
    {
        if same_wallet(&board[i].wallet_address, wallet) {
            proof {
                lemma_first_unique(board@, *wallet, i as int);
            }
            return Some(i);
        }
        i += 1;
    }
    None
}

/// Orders the lines by best time, ascending; lines with equal times keep
/// their order.
pub fn sort_by_time(board: &mut Vec<LeaderboardEntry>)
    ensures
        final(board)@ == stable_sort(old(board)@),
{
    let ghost orig = board@;
    let n: usize = board.len();
    let mut i: usize = 0;
    proof {
        assert(orig.take(0) =~= Seq::<LeaderboardEntry>::empty());
        assert(board@.take(0) =~= stable_sort(orig.take(0)));
        assert(board@.skip(0) =~= orig.skip(0));
    }
    while i < n
        invariant
            board@.len() == n,
            orig.len() == n,
            i <= n,
            board@.take(i as int) == stable_sort(orig.take(i as int)),
            board@.skip(i as int) == orig.skip(i as int),
        decreases n - i,
    {
        let ghost before = board@;
        let ghost head = stable_sort(orig.take(i as int));
        let entry = board.remove(i);
        proof {
            lemma_stable_sort(orig.take(i as int));
            assert(before.skip(i as int)[0] == orig.skip(i as int)[0]);
            assert(entry == orig[i as int]);
            assert(board@.take(i as int) =~= before.take(i as int));
            assert(head.take(i as int) =~= head);
        }
        let mut j: usize = i;
        while j > 0 && board[j - 1].best_time_ms > entry.best_time_ms
            invariant
                j <= i,
                i < n,
                board@.len() == n - 1,
                head.len() == i,
                board@.take(i as int) == head,
                insert_pos(head, entry.best_time_ms) == insert_pos(head.take(j as int), entry.best_time_ms),
            decreases j,
        {
            proof {
                let cur = head.take(j as int);
                assert(cur.last() == head[j - 1]);
                assert(board@.take(i as int)[j - 1] == board@[j - 1]);
                assert(cur.drop_last() =~= head.take(j - 1));
            }
            j -= 1;
        }
        proof {
            let cur = head.take(j as int);
            if j > 0 {
                assert(cur.last() == head[j - 1]);
                assert(board@.take(i as int)[j - 1] == board@[j - 1]);
            }
            assert(insert_pos(head, entry.best_time_ms) == j);
        }
        let ghost mid = board@;
        board.insert(j, entry);
        proof {
            let next = orig.take(i + 1);
            assert(next.drop_last() =~= orig.take(i as int));
            assert(next.last() == orig[i as int]);
            assert(stable_sort(next) == head.insert(j as int, entry));
            assert(mid.take(i as int) == head);
            let lhs = board@.take(i + 1);
            let rhs = head.insert(j as int, entry);
            assert forall|k: int| 0 <= k < i + 1 implies #[trigger] lhs[k] == rhs[k] by {
                if k < j {
                    assert(mid.take(i as int)[k] == mid[k]);
                } else if k > j {
                    assert(mid.take(i as int)[k - 1] == mid[k - 1]);
                }
            }
            assert(lhs =~= rhs);
            let rest = board@.skip(i + 1);
            let want = orig.skip(i + 1);
            assert forall|k: int| 0 <= k < n - i - 1 implies #[trigger] rest[k] == want[k] by {
                assert(board@[i + 1 + k] == mid[i + k]);
                assert(mid[i + k] == before[i + k + 1]);
                assert(before.skip(i as int)[k + 1] == orig.skip(i as int)[k + 1]);
            }
            assert(rest =~= want);
        }
        i += 1;
    }
    proof {
        assert(board@.take(n as int) =~= board@);
        assert(orig.take(n as int) =~= orig);
    }
}

/// Takes a player's tournament snapshot into the ranking and returns the rank
/// the player then holds, or 0 when the player fell below the capacity.
///
/// The player's line is brought up to date, or added at the end when there was
/// none; the lines are ordered by best time, ties in the order they stood; the
/// ranking is cut to [`LEADERBOARD_CAPACITY`] lines, and each line's rank is
/// set to its one-based position.
pub fn update_leaderboard(
    board: &mut Vec<LeaderboardEntry>,
    snapshot: &TournamentPlayer,
) -> (rank: u32)
    ensures
        final(board)@ == updated_board(old(board)@, *snapshot),
        rank == rank_of(final(board)@, snapshot.wallet_address),
{
    match find_entry(board, &snapshot.wallet_address) {
        Some(i) => {
            if snapshot.best_time_ms < board[i].best_time_ms {
                board[i].best_time_ms = snapshot.best_time_ms;
            }
            board[i].best_score = snapshot.best_score;
            board[i].total_runs = snapshot.total_runs;
            board[i].total_xp = snapshot.total_xp_earned;
            assert(board@ =~= merged(old(board)@, *snapshot));
        },
        None => {
            board.push(
                LeaderboardEntry {
                    rank: 0,
                    wallet_address: snapshot.wallet_address,
                    username: snapshot.username.clone(),
                    best_time_ms: snapshot.best_time_ms,
                    best_score: snapshot.best_score,
                    total_runs: snapshot.total_runs,
                    total_xp: snapshot.total_xp_earned,
                },
            );
        },
    }
    sort_by_time(board);
    board.truncate(LEADERBOARD_CAPACITY);
    let ghost cut = board@;
    assert(cut =~= top(stable_sort(merged(old(board)@, *snapshot))));
    let n: usize = board.len();
    let mut i: usize = 0;
    while i < n
        invariant
            i <= n,
            n <= LEADERBOARD_CAPACITY,
            board@.len() == n,
            cut.len() == n,
            forall|k: int| 0 <= k < i ==> board@[k] == reranked(cut)[k],
            forall|k: int| i <= k < n ==> board@[k] == cut[k],
        decreases n - i,
    {
        board[i].rank = (i + 1) as u32;
        i += 1;
    }
    assert(board@ =~= reranked(cut));
    match find_entry(board, &snapshot.wallet_address) {
        Some(i) => board[i].rank,
        None => 0,
    }
}


} // verus!
