//! The session's decisions: which piece to ask a peer for, which peers to
//! choke and unchoke, and what to do when a peer goes away. The loop that
//! runs the connections and timers hands the events to these functions and
//! carries out what they decide.

use vstd::prelude::*;

use crate::commands::BroadCmd;
use crate::constants::{MAX_NOT_INTERESTED, MAX_OPTIMISTIC, MAX_OPTIMISTIC_ROUNDS, MAX_UNCHOKED, PEER_ID_SIZE};
use crate::error::Error;
use crate::metainfo::Metainfo;
use crate::commands::{
    BitfieldCmd, HaveCmd, InitCmd, NotInterestedCmd, PieceDoneCmd, RequestCmd, UnchokeCmd,
};
use crate::error::is_invalid_length;
use crate::messages::bitfield::{bit_at, bytes_for, read_len, Bitfield};
use crate::peer::{
    no_pieces, bitfield_spec, choke_spec, have_spec, init_spec, interested_spec, not_interested_spec,
    piece_done_spec, request_spec, sync_stats_spec, unchoke_spec, Peer, Status,
};
use crate::progress_view::count_true;
use crate::random::{choose_addr, shuffle_pairs};

verus! {

broadcast use {vstd::seq_lib::group_to_multiset_ensures, vstd::multiset::group_multiset_axioms};

/// Below this number of pieces still missing, pieces that are already being
/// downloaded from another peer may be asked for too ("end game").
pub const END_GAME_LIMIT: usize = 10;

/// The state of a download: the pieces, the peers with their states, the
/// peers proposed by the tracker and not tried yet, and the optimistic
/// unchoke round.
pub struct Session {
    pub own_id: [u8; PEER_ID_SIZE],
    pub pieces_status: Vec<Status>,
    pub peers: Vec<(String, Peer)>,
    pub metainfo: Metainfo,
    pub candidates: Vec<(String, [u8; PEER_ID_SIZE])>,
    pub round: usize,
    pub files_extracted: bool,
}

/// The addresses of the peers.
pub open spec fn keys(peers: Seq<(String, Peer)>) -> Seq<Seq<char>> {
    Seq::new(peers.len(), |k: int| peers[k].0@)
}

/// The position of the first peer with address `addr`, or -1.
pub open spec fn key_index(ks: Seq<Seq<char>>, addr: Seq<char>) -> int
    decreases ks.len(),
{
    if ks.len() == 0 {
        -1
    } else if ks[0] == addr {
        0
    } else {
        let k = key_index(ks.drop_first(), addr);
        if k < 0 {
            -1
        } else {
            k + 1
        }
    }
}

/// The number of peers that have piece `i`.
pub open spec fn have_count(peers: Seq<(String, Peer)>, i: int) -> int
    decreases peers.len(),
{
    if peers.len() == 0 {
        0
    } else {
        have_count(peers.drop_last(), i) + (if peers.last().1.pieces@[i] {
            1int
        } else {
            0int
        })
    }
}

/// The number of pieces that we do not have.
pub open spec fn missing_count(st: Seq<Status>) -> int
    decreases st.len(),
{
    if st.len() == 0 {
        0
    } else {
        missing_count(st.drop_last()) + (if st.last() != Status::Have {
            1int
        } else {
            0int
        })
    }
}

/// Whether a piece is worth asking for: a missing one, or in the end game
/// any that we do not have.
pub open spec fn desired(st: Seq<Status>, i: int) -> bool {
    if missing_count(st) < END_GAME_LIMIT {
        st[i] != Status::Have
    } else {
        st[i] == Status::Missing
    }
}


/// Views of the addresses in a list.
pub open spec fn addr_views(v: Seq<String>) -> Seq<Seq<char>> {
    Seq::new(v.len(), |k: int| v[k]@)
}

/// The addresses of the rates, in order.
pub open spec fn rate_addrs(v: Seq<(String, u32)>) -> Seq<Seq<char>> {
    Seq::new(v.len(), |k: int| v[k].0@)
}

/// Whether rates are in descending order.
pub open spec fn sorted_desc(v: Seq<(String, u32)>) -> bool {
    forall|a: int, b: int| 0 <= a < b < v.len() ==> v[a].1 >= v[b].1
}

/// View of an association list of choke states.
pub open spec fn map_view(v: Seq<(String, bool)>) -> Seq<(Seq<char>, bool)> {
    Seq::new(v.len(), |k: int| (v[k].0@, v[k].1))
}

/// Sets the value of a key in an association list: in place where the key
/// is, at the end where it is not.
pub open spec fn assoc_insert(m: Seq<(Seq<char>, bool)>, k: Seq<char>, b: bool) -> Seq<(Seq<char>, bool)> {
    let i = key_index(Seq::new(m.len(), |j: int| m[j].0), k);
    if i >= 0 {
        m.update(i, (k, b))
    } else {
        m.push((k, b))
    }
}

/// Our choke state and optimistic unchoke flag for each peer.
pub open spec fn peer_flags(peers: Seq<(String, Peer)>) -> Seq<(bool, bool)> {
    Seq::new(peers.len(), |k: int| (peers[k].1.am_choked, peers[k].1.optimistic_unchoke))
}

/// Whether each peer is interested.
pub open spec fn interest(peers: Seq<(String, Peer)>) -> Seq<bool> {
    Seq::new(peers.len(), |k: int| peers[k].1.interested)
}

/// One step of the choke algorithm, for the peer at `addr`: while fewer
/// than the maximum are unchoked, unchoke an interested peer (unless it is
/// the new optimistic one) and choke one that is not interested; past the
/// maximum, choke. A new optimistic unchoke clears the old flags.
pub open spec fn choke_step(
    ks: Seq<Seq<char>>,
    inter: Seq<bool>,
    flags: Seq<(bool, bool)>,
    map: Seq<(Seq<char>, bool)>,
    count: int,
    addr: Seq<char>,
    opt: Seq<Seq<char>>,
) -> (Seq<(bool, bool)>, Seq<(Seq<char>, bool)>, int) {
    let i = key_index(ks, addr);
    let c = flags[i].0;
    let it = inter[i];
    let (c2, map2, count2) = if count < MAX_UNCHOKED {
        if c && it && !opt.contains(addr) {
            (false, assoc_insert(map, addr, false), count + 1)
        } else if !c && it {
            (c, map, count + 1)
        } else if !c && !it {
            (true, assoc_insert(map, addr, true), count)
        } else {
            (c, map, count)
        }
    } else if !c {
        (true, assoc_insert(map, addr, true), count)
    } else {
        (c, map, count)
    };
    let o2 = if opt.len() > 0 {
        false
    } else {
        flags[i].1
    };
    (flags.update(i, (c2, o2)), map2, count2)
}

/// The choke algorithm over the peers in the order of `s`.
pub open spec fn choke_round(
    ks: Seq<Seq<char>>,
    inter: Seq<bool>,
    flags: Seq<(bool, bool)>,
    map: Seq<(Seq<char>, bool)>,
    count: int,
    s: Seq<Seq<char>>,
    opt: Seq<Seq<char>>,
) -> (Seq<(bool, bool)>, Seq<(Seq<char>, bool)>)
    decreases s.len(),
{
    if s.len() == 0 {
        (flags, map)
    } else {
        let (f, m, c) = choke_step(ks, inter, flags, map, count, s[0], opt);
        choke_round(ks, inter, f, m, c, s.drop_first(), opt)
    }
}

/// Unchokes the new optimistic peers.
pub open spec fn optimistic_round(
    ks: Seq<Seq<char>>,
    flags: Seq<(bool, bool)>,
    map: Seq<(Seq<char>, bool)>,
    opt: Seq<Seq<char>>,
) -> (Seq<(bool, bool)>, Seq<(Seq<char>, bool)>)
    decreases opt.len(),
{
    if opt.len() == 0 {
        (flags, map)
    } else {
        let i = key_index(ks, opt[0]);
        optimistic_round(
            ks,
            flags.update(i, (false, true)),
            assoc_insert(map, opt[0], false),
            opt.drop_first(),
        )
    }
}

/// The new flags of the peers and the changes of choke state to announce,
/// for peers taken in the order of `rates` and the new optimistic peers.
pub open spec fn conn_state(peers: Seq<(String, Peer)>, rates: Seq<(String, u32)>, opt: Seq<String>) -> (
    Seq<(bool, bool)>,
    Seq<(Seq<char>, bool)>,
) {
    let ks = keys(peers);
    let (f, m) = choke_round(
        ks,
        interest(peers),
        peer_flags(peers),
        Seq::empty(),
        0,
        rate_addrs(rates),
        addr_views(opt),
    );
    optimistic_round(ks, f, m, addr_views(opt))
}

/// Whether we unchoke each peer, given the peers' flags.
pub open spec fn unchoked_of(flags: Seq<(bool, bool)>) -> Seq<bool> {
    Seq::new(flags.len(), |k: int| !flags[k].0)
}

/// The number of peers that we unchoke.
pub open spec fn unchoked_count(peers: Seq<(String, Peer)>) -> int {
    count_true(unchoked_of(peer_flags(peers)))
}

/// For each peer, whether we unchoke it and it is not ranked in `rest`.
pub open spec fn unchoked_outside(flags: Seq<(bool, bool)>, ks: Seq<Seq<char>>, rest: Seq<Seq<char>>) -> Seq<bool> {
    Seq::new(flags.len(), |k: int| !flags[k].0 && !rest.contains(ks[k]))
}

/// Changing one flag changes the number of flags set by at most one.
pub proof fn lemma_count_true_update(x: Seq<bool>, i: int, b: bool)
    requires
        0 <= i < x.len(),
    ensures
        count_true(x.update(i, b)) == count_true(x) - (if x[i] { 1int } else { 0int }) + (if b {
            1int
        } else {
            0int
        }),
    decreases x.len(),
{
    let y = x.update(i, b);
    if i == x.len() - 1 {
        assert(y.drop_last() =~= x.drop_last());
    } else {
        assert(y.drop_last() =~= x.drop_last().update(i, b));
        lemma_count_true_update(x.drop_last(), i, b);
    }
}

/// No flag set, none counted.
pub proof fn lemma_count_true_none(x: Seq<bool>)
    requires
        forall|k: int| 0 <= k < x.len() ==> !x[k],
    ensures
        count_true(x) == 0,
    decreases x.len(),
{
    if x.len() > 0 {
        lemma_count_true_none(x.drop_last());
    }
}

/// The ranking round unchokes at most `MAX_UNCHOKED` peers in all, when
/// each peer is ranked once and `count` counts those unchoked so far.
proof fn lemma_choke_round_bound(
    ks: Seq<Seq<char>>,
    inter: Seq<bool>,
    flags: Seq<(bool, bool)>,
    map: Seq<(Seq<char>, bool)>,
    count: int,
    s: Seq<Seq<char>>,
    opt: Seq<Seq<char>>,
)
    requires
        flags.len() == ks.len(),
        inter.len() == ks.len(),
        ks.no_duplicates(),
        s.no_duplicates(),
        all_known(ks, s),
        0 <= count <= MAX_UNCHOKED,
        count_true(unchoked_outside(flags, ks, s)) <= count,
    ensures
        choke_round(ks, inter, flags, map, count, s, opt).0.len() == flags.len(),
        count_true(unchoked_of(choke_round(ks, inter, flags, map, count, s, opt).0)) <= MAX_UNCHOKED,
    decreases s.len(),
{
    if s.len() == 0 {
        assert(unchoked_outside(flags, ks, s) =~= unchoked_of(flags));
    } else {
        let a = s[0];
        let i = key_index(ks, a);
        assert(key_index(ks, s[0]) >= 0);
        lemma_key_index(ks, a);
        let (f1, m1, c1) = choke_step(ks, inter, flags, map, count, a, opt);
        let tail = s.drop_first();
        assert(!tail.contains(a)) by {
            if tail.contains(a) {
                let t = choose|t: int| 0 <= t < tail.len() && tail[t] == a;
                assert(s[t + 1] == s[0]);
            }
        }
        let before = unchoked_outside(flags, ks, s);
        let after = unchoked_outside(f1, ks, tail);
        assert(!before[i]);
        assert(after =~= before.update(i, !f1[i].0)) by {
            assert forall|k: int| 0 <= k < flags.len() && k != i implies after[k] == before[k] by {
                assert(ks[k] != a);
                assert(f1[k] == flags[k]);
                if s.contains(ks[k]) {
                    let t = choose|t: int| 0 <= t < s.len() && s[t] == ks[k];
                    assert(t != 0);
                    assert(tail[t - 1] == ks[k]);
                }
                if tail.contains(ks[k]) {
                    let t = choose|t: int| 0 <= t < tail.len() && tail[t] == ks[k];
                    assert(s[t + 1] == ks[k]);
                }
            }
        }
        lemma_count_true_update(before, i, !f1[i].0);
        assert(all_known(ks, tail)) by {
            assert forall|t: int| 0 <= t < tail.len() implies key_index(ks, #[trigger] tail[t]) >= 0 by {
                assert(tail[t] == s[t + 1]);
            }
        }
        assert(tail.no_duplicates());
        lemma_choke_round_bound(ks, inter, f1, m1, c1, tail, opt);
    }
}

/// The optimistic round unchokes at most one more peer for each optimistic
/// address.
proof fn lemma_optimistic_round_bound(
    ks: Seq<Seq<char>>,
    flags: Seq<(bool, bool)>,
    map: Seq<(Seq<char>, bool)>,
    opt: Seq<Seq<char>>,
)
    requires
        flags.len() == ks.len(),
        all_known(ks, opt),
    ensures
        count_true(unchoked_of(optimistic_round(ks, flags, map, opt).0)) <= count_true(
            unchoked_of(flags),
        ) + opt.len(),
    decreases opt.len(),
{
    if opt.len() > 0 {
        let i = key_index(ks, opt[0]);
        assert(key_index(ks, opt[0]) >= 0);
        lemma_key_index(ks, opt[0]);
        let f1 = flags.update(i, (false, true));
        assert(unchoked_of(f1) =~= unchoked_of(flags).update(i, true));
        lemma_count_true_update(unchoked_of(flags), i, true);
        let tail = opt.drop_first();
        assert(all_known(ks, tail)) by {
            assert forall|t: int| 0 <= t < tail.len() implies key_index(ks, #[trigger] tail[t]) >= 0 by {
                assert(tail[t] == opt[t + 1]);
            }
        }
        lemma_optimistic_round_bound(ks, f1, assoc_insert(map, opt[0], false), tail);
    }
}

/// The addresses of an association list, in order.
pub open spec fn assoc_keys(m: Seq<(Seq<char>, bool)>) -> Seq<Seq<char>> {
    Seq::new(m.len(), |j: int| m[j].0)
}

/// Whether the announced choke states agree with the flags: each address
/// announced once, each a peer's, whose choke state is the one announced.
pub open spec fn announced_ok(ks: Seq<Seq<char>>, flags: Seq<(bool, bool)>, map: Seq<(Seq<char>, bool)>) -> bool {
    &&& assoc_keys(map).no_duplicates()
    &&& forall|j: int|
        0 <= j < map.len() ==> key_index(ks, (#[trigger] map[j]).0) >= 0 && flags[key_index(
            ks,
            map[j].0,
        )].0 == map[j].1
}

/// Setting the choke state of a peer and announcing it keeps the
/// announcement in agreement with the flags.
proof fn lemma_announce_set(
    ks: Seq<Seq<char>>,
    flags: Seq<(bool, bool)>,
    map: Seq<(Seq<char>, bool)>,
    k: Seq<char>,
    b: bool,
    x: bool,
)
    requires
        announced_ok(ks, flags, map),
        flags.len() == ks.len(),
        key_index(ks, k) >= 0,
    ensures
        announced_ok(ks, flags.update(key_index(ks, k), (b, x)), assoc_insert(map, k, b)),
{
    let i = key_index(ks, k);
    lemma_key_index(ks, k);
    let f2 = flags.update(i, (b, x));
    let m2 = assoc_insert(map, k, b);
    let mk = assoc_keys(map);
    lemma_key_index(mk, k);
    let p = key_index(mk, k);
    assert forall|j: int| 0 <= j < m2.len() implies key_index(ks, (#[trigger] m2[j]).0) >= 0 && f2[key_index(ks, m2[j].0)].0 == m2[j].1 by {
        if p >= 0 {
            assert(mk[p] == k);
            if j == p {
                assert(m2[j] == (k, b));
            } else {
                assert(m2[j] == map[j]);
                assert(mk[j] == map[j].0);
                assert(map[j].0 != k);
                let i2 = key_index(ks, map[j].0);
                lemma_key_index(ks, map[j].0);
                assert(f2[i2] == flags[i2]);
            }
        } else {
            if j == map.len() {
                assert(m2[j] == (k, b));
            } else {
                assert(m2[j] == map[j]);
                assert(mk[j] == map[j].0);
                if map[j].0 == k {
                    assert(mk.contains(k));
                }
                let i2 = key_index(ks, map[j].0);
                lemma_key_index(ks, map[j].0);
                assert(f2[i2] == flags[i2]);
            }
        }
    }
    if p >= 0 {
        assert(assoc_keys(m2) =~= mk);
    } else {
        assert(assoc_keys(m2) =~= mk.push(k));
    }
}

/// Changing the flags of a peer, but not its choke state, keeps the
/// announcement in agreement with the flags.
proof fn lemma_announce_keep(ks: Seq<Seq<char>>, flags: Seq<(bool, bool)>, map: Seq<(Seq<char>, bool)>, i: int, v: (bool, bool))
    requires
        announced_ok(ks, flags, map),
        flags.len() == ks.len(),
        0 <= i < flags.len(),
        v.0 == flags[i].0,
    ensures
        announced_ok(ks, flags.update(i, v), map),
{
    let f2 = flags.update(i, v);
    assert forall|j: int| 0 <= j < map.len() implies key_index(ks, (#[trigger] map[j]).0) >= 0 && f2[key_index(ks, map[j].0)].0 == map[j].1 by {
        let i2 = key_index(ks, map[j].0);
        lemma_key_index(ks, map[j].0);
        if i2 == i {
        } else {
            assert(f2[i2] == flags[i2]);
        }
    }
}

/// The ranking round announces the choke states it sets.
proof fn lemma_choke_round_announced(
    ks: Seq<Seq<char>>,
    inter: Seq<bool>,
    flags: Seq<(bool, bool)>,
    map: Seq<(Seq<char>, bool)>,
    count: int,
    s: Seq<Seq<char>>,
    opt: Seq<Seq<char>>,
)
    requires
        flags.len() == ks.len(),
        inter.len() == ks.len(),
        all_known(ks, s),
        announced_ok(ks, flags, map),
    ensures
        choke_round(ks, inter, flags, map, count, s, opt).0.len() == flags.len(),
        announced_ok(
            ks,
            choke_round(ks, inter, flags, map, count, s, opt).0,
            choke_round(ks, inter, flags, map, count, s, opt).1,
        ),
    decreases s.len(),
{
    if s.len() > 0 {
        let a = s[0];
        assert(key_index(ks, s[0]) >= 0);
        let i = key_index(ks, a);
        lemma_key_index(ks, a);
        let c = flags[i].0;
        let it = inter[i];
        let o2 = if opt.len() > 0 {
            false
        } else {
            flags[i].1
        };
        let (f1, m1, c1) = choke_step(ks, inter, flags, map, count, a, opt);
        if count < MAX_UNCHOKED {
            if c && it && !opt.contains(a) {
                lemma_announce_set(ks, flags, map, a, false, o2);
            } else if !c && it {
                lemma_announce_keep(ks, flags, map, i, (c, o2));
            } else if !c && !it {
                lemma_announce_set(ks, flags, map, a, true, o2);
            } else {
                lemma_announce_keep(ks, flags, map, i, (c, o2));
            }
        } else if !c {
            lemma_announce_set(ks, flags, map, a, true, o2);
        } else {
            lemma_announce_keep(ks, flags, map, i, (c, o2));
        }
        let tail = s.drop_first();
        assert(all_known(ks, tail)) by {
            assert forall|t: int| 0 <= t < tail.len() implies key_index(ks, #[trigger] tail[t]) >= 0 by {
                assert(tail[t] == s[t + 1]);
            }
        }
        lemma_choke_round_announced(ks, inter, f1, m1, c1, tail, opt);
    }
}

/// The optimistic round announces the peers it unchokes.
proof fn lemma_optimistic_round_announced(
    ks: Seq<Seq<char>>,
    flags: Seq<(bool, bool)>,
    map: Seq<(Seq<char>, bool)>,
    opt: Seq<Seq<char>>,
)
    requires
        flags.len() == ks.len(),
        all_known(ks, opt),
        announced_ok(ks, flags, map),
    ensures
        announced_ok(ks, optimistic_round(ks, flags, map, opt).0, optimistic_round(ks, flags, map, opt).1),
    decreases opt.len(),
{
    if opt.len() > 0 {
        assert(key_index(ks, opt[0]) >= 0);
        lemma_key_index(ks, opt[0]);
        lemma_announce_set(ks, flags, map, opt[0], false, true);
        let tail = opt.drop_first();
        assert(all_known(ks, tail)) by {
            assert forall|t: int| 0 <= t < tail.len() implies key_index(ks, #[trigger] tail[t]) >= 0 by {
                assert(tail[t] == opt[t + 1]);
            }
        }
        lemma_optimistic_round_announced(
            ks,
            flags.update(key_index(ks, opt[0]), (false, true)),
            assoc_insert(map, opt[0], false),
            tail,
        );
    }
}

/// What a change of connection state announces is what it sets: each
/// address is announced once, and is a peer's whose choke state becomes
/// the one announced.
pub proof fn lemma_conn_state_announced(peers: Seq<(String, Peer)>, rates: Seq<(String, u32)>, opt: Seq<String>)
    requires
        all_known(keys(peers), rate_addrs(rates)),
        all_known(keys(peers), addr_views(opt)),
    ensures
        announced_ok(keys(peers), conn_state(peers, rates, opt).0, conn_state(peers, rates, opt).1),
{
    let ks = keys(peers);
    let e = Seq::<(Seq<char>, bool)>::empty();
    assert(assoc_keys(e) =~= Seq::<Seq<char>>::empty());
    lemma_choke_round_announced(ks, interest(peers), peer_flags(peers), e, 0, rate_addrs(rates), addr_views(opt));
    let (f, m) = choke_round(ks, interest(peers), peer_flags(peers), e, 0, rate_addrs(rates), addr_views(opt));
    lemma_optimistic_round_announced(ks, f, m, addr_views(opt));
}

/// The ranking round unchokes only interested peers: a ranked peer that
/// ends unchoked is interested, when every peer is ranked once.
proof fn lemma_choke_round_interested(
    ks: Seq<Seq<char>>,
    inter: Seq<bool>,
    flags: Seq<(bool, bool)>,
    map: Seq<(Seq<char>, bool)>,
    count: int,
    s: Seq<Seq<char>>,
    opt: Seq<Seq<char>>,
)
    requires
        flags.len() == ks.len(),
        inter.len() == ks.len(),
        ks.no_duplicates(),
        s.no_duplicates(),
        all_known(ks, s),
        forall|k: int| 0 <= k < flags.len() && !s.contains(ks[k]) && !(#[trigger] flags[k]).0 ==> inter[k],
    ensures
        choke_round(ks, inter, flags, map, count, s, opt).0.len() == flags.len(),
        forall|k: int|
            0 <= k < flags.len() && !(#[trigger] choke_round(ks, inter, flags, map, count, s, opt).0[k]).0
                ==> inter[k],
    decreases s.len(),
{
    if s.len() > 0 {
        let a = s[0];
        assert(key_index(ks, s[0]) >= 0);
        let i = key_index(ks, a);
        lemma_key_index(ks, a);
        let (f1, m1, c1) = choke_step(ks, inter, flags, map, count, a, opt);
        let tail = s.drop_first();
        assert(!tail.contains(a)) by {
            if tail.contains(a) {
                let t = choose|t: int| 0 <= t < tail.len() && tail[t] == a;
                assert(s[t + 1] == s[0]);
            }
        }
        assert forall|k: int| 0 <= k < f1.len() && !tail.contains(ks[k]) && !(#[trigger] f1[k]).0 implies inter[k] by {
            if k != i {
                assert(ks[k] != a);
                assert(f1[k] == flags[k]);
                if s.contains(ks[k]) {
                    let t = choose|t: int| 0 <= t < s.len() && s[t] == ks[k];
                    assert(t != 0);
                    assert(tail[t - 1] == ks[k]);
                }
            }
        }
        assert(all_known(ks, tail)) by {
            assert forall|t: int| 0 <= t < tail.len() implies key_index(ks, #[trigger] tail[t]) >= 0 by {
                assert(tail[t] == s[t + 1]);
            }
        }
        lemma_choke_round_interested(ks, inter, f1, m1, c1, tail, opt);
    }
}

/// The optimistic round unchokes only the optimistic peers.
proof fn lemma_optimistic_round_unchokes(
    ks: Seq<Seq<char>>,
    flags: Seq<(bool, bool)>,
    map: Seq<(Seq<char>, bool)>,
    opt: Seq<Seq<char>>,
)
    requires
        flags.len() == ks.len(),
        all_known(ks, opt),
    ensures
        optimistic_round(ks, flags, map, opt).0.len() == flags.len(),
        forall|k: int|
            0 <= k < flags.len() && !(#[trigger] optimistic_round(ks, flags, map, opt).0[k]).0 ==> !flags[k].0
                || opt.contains(ks[k]),
    decreases opt.len(),
{
    if opt.len() > 0 {
        assert(key_index(ks, opt[0]) >= 0);
        let i = key_index(ks, opt[0]);
        lemma_key_index(ks, opt[0]);
        let f1 = flags.update(i, (false, true));
        let tail = opt.drop_first();
        assert(all_known(ks, tail)) by {
            assert forall|t: int| 0 <= t < tail.len() implies key_index(ks, #[trigger] tail[t]) >= 0 by {
                assert(tail[t] == opt[t + 1]);
            }
        }
        lemma_optimistic_round_unchokes(ks, f1, assoc_insert(map, opt[0], false), tail);
        let fr = optimistic_round(ks, flags, map, opt).0;
        assert forall|k: int| 0 <= k < flags.len() && !(#[trigger] fr[k]).0 implies !flags[k].0 || opt.contains(ks[k]) by {
            if k == i {
                assert(opt[0] == ks[k]);
            } else if tail.contains(ks[k]) {
                let t = choose|t: int| 0 <= t < tail.len() && tail[t] == ks[k];
                assert(opt[t + 1] == ks[k]);
            }
        }
    }
}

/// A change of connection state that ranks every peer once, at distinct
/// addresses, leaves unchoked only interested peers and the new optimistic
/// peers.
pub proof fn lemma_conn_state_interested(peers: Seq<(String, Peer)>, rates: Seq<(String, u32)>, opt: Seq<String>)
    requires
        keys(peers).no_duplicates(),
        rate_addrs(rates).no_duplicates(),
        all_known(keys(peers), rate_addrs(rates)),
        all_known(keys(peers), addr_views(opt)),
        forall|k: int| 0 <= k < peers.len() ==> rate_addrs(rates).contains(#[trigger] keys(peers)[k]),
    ensures
        forall|k: int|
            0 <= k < peers.len() && !(#[trigger] conn_state(peers, rates, opt).0[k]).0 ==> peers[k].1.interested
                || addr_views(opt).contains(keys(peers)[k]),
{
    let ks = keys(peers);
    let s = rate_addrs(rates);
    let flags = peer_flags(peers);
    let inter = interest(peers);
    assert forall|k: int| 0 <= k < flags.len() && !s.contains(ks[k]) && !(#[trigger] flags[k]).0 implies inter[k] by {
        assert(s.contains(ks[k]));
    }
    lemma_choke_round_interested(ks, inter, flags, Seq::empty(), 0, s, addr_views(opt));
    let (f, m) = choke_round(ks, inter, flags, Seq::empty(), 0, s, addr_views(opt));
    lemma_optimistic_round_unchokes(ks, f, m, addr_views(opt));
    assert forall|k: int| 0 <= k < peers.len() && !(#[trigger] conn_state(peers, rates, opt).0[k]).0 implies peers[k].1.interested
        || addr_views(opt).contains(ks[k]) by {
        if !f[k].0 {
            assert(inter[k]);
        }
    }
}

/// The ranking round keeps the number of peers.
proof fn lemma_choke_round_len(
    ks: Seq<Seq<char>>,
    inter: Seq<bool>,
    flags: Seq<(bool, bool)>,
    map: Seq<(Seq<char>, bool)>,
    count: int,
    s: Seq<Seq<char>>,
    opt: Seq<Seq<char>>,
)
    requires
        flags.len() == ks.len(),
        all_known(ks, s),
    ensures
        choke_round(ks, inter, flags, map, count, s, opt).0.len() == flags.len(),
    decreases s.len(),
{
    if s.len() > 0 {
        assert(key_index(ks, s[0]) >= 0);
        lemma_key_index(ks, s[0]);
        let (f1, m1, c1) = choke_step(ks, inter, flags, map, count, s[0], opt);
        let tail = s.drop_first();
        assert(all_known(ks, tail)) by {
            assert forall|t: int| 0 <= t < tail.len() implies key_index(ks, #[trigger] tail[t]) >= 0 by {
                assert(tail[t] == s[t + 1]);
            }
        }
        lemma_choke_round_len(ks, inter, f1, m1, c1, tail, opt);
    }
}

/// The ranking round leaves the flags of a peer that it does not rank as
/// they were.
proof fn lemma_choke_round_untouched(
    ks: Seq<Seq<char>>,
    inter: Seq<bool>,
    flags: Seq<(bool, bool)>,
    map: Seq<(Seq<char>, bool)>,
    count: int,
    s: Seq<Seq<char>>,
    opt: Seq<Seq<char>>,
    i: int,
)
    requires
        flags.len() == ks.len(),
        inter.len() == ks.len(),
        all_known(ks, s),
        0 <= i < flags.len(),
        !s.contains(ks[i]),
    ensures
        choke_round(ks, inter, flags, map, count, s, opt).0.len() == flags.len(),
        choke_round(ks, inter, flags, map, count, s, opt).0[i] == flags[i],
    decreases s.len(),
{
    if s.len() > 0 {
        let a = s[0];
        assert(key_index(ks, s[0]) >= 0);
        lemma_key_index(ks, a);
        assert(ks[key_index(ks, a)] != ks[i]);
        let (f1, m1, c1) = choke_step(ks, inter, flags, map, count, a, opt);
        let tail = s.drop_first();
        assert(!tail.contains(ks[i])) by {
            if tail.contains(ks[i]) {
                let t = choose|t: int| 0 <= t < tail.len() && tail[t] == ks[i];
                assert(s[t + 1] == ks[i]);
            }
        }
        assert(all_known(ks, tail)) by {
            assert forall|t: int| 0 <= t < tail.len() implies key_index(ks, #[trigger] tail[t]) >= 0 by {
                assert(tail[t] == s[t + 1]);
            }
        }
        lemma_choke_round_untouched(ks, inter, f1, m1, c1, tail, opt, i);
    }
}

/// A ranked peer that ends unchoked was reached while fewer than
/// `MAX_UNCHOKED` peers were counted, so the round began under the maximum.
proof fn lemma_choke_round_late(
    ks: Seq<Seq<char>>,
    inter: Seq<bool>,
    flags: Seq<(bool, bool)>,
    map: Seq<(Seq<char>, bool)>,
    count: int,
    s: Seq<Seq<char>>,
    opt: Seq<Seq<char>>,
    q: int,
)
    requires
        flags.len() == ks.len(),
        inter.len() == ks.len(),
        s.no_duplicates(),
        all_known(ks, s),
        0 <= q < s.len(),
    ensures
        key_index(ks, s[q]) >= 0,
        !choke_round(ks, inter, flags, map, count, s, opt).0[key_index(ks, s[q])].0 ==> count
            < MAX_UNCHOKED,
    decreases s.len(),
{
    let a = s[0];
    assert(key_index(ks, s[0]) >= 0);
    assert(key_index(ks, s[q]) >= 0);
    let j = key_index(ks, a);
    lemma_key_index(ks, a);
    let (f1, m1, c1) = choke_step(ks, inter, flags, map, count, a, opt);
    let tail = s.drop_first();
    assert(all_known(ks, tail)) by {
        assert forall|t: int| 0 <= t < tail.len() implies key_index(ks, #[trigger] tail[t]) >= 0 by {
            assert(tail[t] == s[t + 1]);
        }
    }
    assert(c1 >= count);
    if q == 0 {
        assert(!tail.contains(a)) by {
            if tail.contains(a) {
                let t = choose|t: int| 0 <= t < tail.len() && tail[t] == a;
                assert(s[t + 1] == s[0]);
            }
        }
        lemma_choke_round_untouched(ks, inter, f1, m1, c1, tail, opt, j);
    } else {
        assert(tail[q - 1] == s[q]);
        lemma_choke_round_late(ks, inter, f1, m1, c1, tail, opt, q - 1);
    }
}

/// In the ranking round, an interested peer ranked before another, and not
/// a new optimistic one, ends unchoked whenever the later one does.
proof fn lemma_choke_round_order(
    ks: Seq<Seq<char>>,
    inter: Seq<bool>,
    flags: Seq<(bool, bool)>,
    map: Seq<(Seq<char>, bool)>,
    count: int,
    s: Seq<Seq<char>>,
    opt: Seq<Seq<char>>,
    p: int,
    q: int,
)
    requires
        flags.len() == ks.len(),
        inter.len() == ks.len(),
        s.no_duplicates(),
        all_known(ks, s),
        0 <= p < q < s.len(),
        key_index(ks, s[p]) >= 0,
        inter[key_index(ks, s[p])],
        !opt.contains(s[p]),
    ensures
        key_index(ks, s[q]) >= 0,
        !choke_round(ks, inter, flags, map, count, s, opt).0[key_index(ks, s[q])].0
            ==> !choke_round(ks, inter, flags, map, count, s, opt).0[key_index(ks, s[p])].0,
    decreases s.len(),
{
    let a = s[0];
    assert(key_index(ks, s[0]) >= 0);
    assert(key_index(ks, s[q]) >= 0);
    let j = key_index(ks, a);
    lemma_key_index(ks, a);
    let (f1, m1, c1) = choke_step(ks, inter, flags, map, count, a, opt);
    let tail = s.drop_first();
    assert(all_known(ks, tail)) by {
        assert forall|t: int| 0 <= t < tail.len() implies key_index(ks, #[trigger] tail[t]) >= 0 by {
            assert(tail[t] == s[t + 1]);
        }
    }
    assert(tail[q - 1] == s[q]);
    if p == 0 {
        assert(!tail.contains(a)) by {
            if tail.contains(a) {
                let t = choose|t: int| 0 <= t < tail.len() && tail[t] == a;
                assert(s[t + 1] == s[0]);
            }
        }
        lemma_choke_round_late(ks, inter, f1, m1, c1, tail, opt, q - 1);
        lemma_choke_round_untouched(ks, inter, f1, m1, c1, tail, opt, j);
    } else {
        assert(tail[p - 1] == s[p]);
        lemma_choke_round_order(ks, inter, f1, m1, c1, tail, opt, p - 1, q - 1);
    }
}

/// The optimistic round leaves the flags of a peer that is not a new
/// optimistic one as they were.
proof fn lemma_optimistic_round_untouched(
    ks: Seq<Seq<char>>,
    flags: Seq<(bool, bool)>,
    map: Seq<(Seq<char>, bool)>,
    opt: Seq<Seq<char>>,
    i: int,
)
    requires
        flags.len() == ks.len(),
        all_known(ks, opt),
        0 <= i < flags.len(),
        !opt.contains(ks[i]),
    ensures
        optimistic_round(ks, flags, map, opt).0[i] == flags[i],
    decreases opt.len(),
{
    if opt.len() > 0 {
        assert(key_index(ks, opt[0]) >= 0);
        let j = key_index(ks, opt[0]);
        lemma_key_index(ks, opt[0]);
        assert(ks[j] != ks[i]);
        let tail = opt.drop_first();
        assert(all_known(ks, tail)) by {
            assert forall|t: int| 0 <= t < tail.len() implies key_index(ks, #[trigger] tail[t]) >= 0 by {
                assert(tail[t] == opt[t + 1]);
            }
        }
        assert(!tail.contains(ks[i])) by {
            if tail.contains(ks[i]) {
                let t = choose|t: int| 0 <= t < tail.len() && tail[t] == ks[i];
                assert(opt[t + 1] == ks[i]);
            }
        }
        lemma_optimistic_round_untouched(ks, flags.update(j, (false, true)), assoc_insert(map, opt[0], false), tail, i);
    }
}

/// Unchoking goes by rate: with the rates in descending order, an
/// interested peer that is faster than another, neither of them a new
/// optimistic peer, ends unchoked whenever the slower one does.
pub proof fn lemma_conn_state_rate_order(
    peers: Seq<(String, Peer)>,
    rates: Seq<(String, u32)>,
    opt: Seq<String>,
    p: int,
    q: int,
)
    requires
        rate_addrs(rates).no_duplicates(),
        all_known(keys(peers), rate_addrs(rates)),
        all_known(keys(peers), addr_views(opt)),
        sorted_desc(rates),
        0 <= p < rates.len(),
        0 <= q < rates.len(),
        rates[p].1 > rates[q].1,
        peers[key_index(keys(peers), rates[p].0@)].1.interested,
        !addr_views(opt).contains(rates[p].0@),
        !addr_views(opt).contains(rates[q].0@),
    ensures
        key_index(keys(peers), rates[p].0@) >= 0,
        key_index(keys(peers), rates[q].0@) >= 0,
        !conn_state(peers, rates, opt).0[key_index(keys(peers), rates[q].0@)].0 ==> !conn_state(
            peers,
            rates,
            opt,
        ).0[key_index(keys(peers), rates[p].0@)].0,
{
    let ks = keys(peers);
    let s = rate_addrs(rates);
    let o = addr_views(opt);
    let inter = interest(peers);
    let flags = peer_flags(peers);
    assert(s[p] == rates[p].0@);
    assert(s[q] == rates[q].0@);
    assert(key_index(ks, s[p]) >= 0);
    assert(key_index(ks, s[q]) >= 0);
    assert(p < q);
    let a = key_index(ks, s[p]);
    let b = key_index(ks, s[q]);
    lemma_key_index(ks, s[p]);
    lemma_key_index(ks, s[q]);
    assert(inter[a]);
    lemma_choke_round_order(ks, inter, flags, Seq::empty(), 0, s, o, p, q);
    lemma_choke_round_len(ks, inter, flags, Seq::empty(), 0, s, o);
    let (f, m) = choke_round(ks, inter, flags, Seq::empty(), 0, s, o);
    lemma_optimistic_round_untouched(ks, f, m, o, a);
    lemma_optimistic_round_untouched(ks, f, m, o, b);
}

/// A ranking of the rates of all peers, in any order, ranks each peer
/// once.
proof fn lemma_ranking_of_all(peers: Seq<(String, Peer)>, rates: Seq<(String, u32)>, seeder: bool)
    requires
        keys(peers).no_duplicates(),
        rates.to_multiset() == rates_of(peers, seeder).to_multiset(),
    ensures
        rate_addrs(rates).no_duplicates(),
        forall|k: int| 0 <= k < peers.len() ==> rate_addrs(rates).contains(#[trigger] keys(peers)[k]),
{
    let built = rates_of(peers, seeder);
    let ks = keys(peers);
    assert forall|k: int| 0 <= k < peers.len() implies rate_addrs(rates).contains(#[trigger] keys(peers)[k]) by {
        assert(built.contains(built[k]));
        assert(rates.to_multiset().count(built[k]) > 0);
        assert(rates.contains(built[k]));
        let t = choose|t: int| 0 <= t < rates.len() && rates[t] == built[k];
        assert(rate_addrs(rates)[t] == ks[k]);
    }
    assert(built.no_duplicates()) by {
        assert forall|a: int, b: int| 0 <= a < built.len() && 0 <= b < built.len() && a != b implies built[a] != built[b] by {
            assert(ks[a] != ks[b]);
        }
    }
    built.lemma_multiset_has_no_duplicates();
    rates.lemma_multiset_has_no_duplicates_conv();
    assert forall|a: int, b: int| 0 <= a < rates.len() && 0 <= b < rates.len() && a != b implies rate_addrs(rates)[a] != rate_addrs(rates)[b] by {
        assert(rates.contains(rates[a]));
        assert(rates.contains(rates[b]));
        assert(built.to_multiset().count(rates[a]) > 0);
        assert(built.to_multiset().count(rates[b]) > 0);
        assert(built.contains(rates[a]));
        assert(built.contains(rates[b]));
        let ka = choose|ka: int| 0 <= ka < built.len() && built[ka] == rates[a];
        let kb = choose|kb: int| 0 <= kb < built.len() && built[kb] == rates[b];
        if rate_addrs(rates)[a] == rate_addrs(rates)[b] {
            assert(ks[ka] == ks[kb]);
            assert(ka == kb);
        }
    }
}

/// A change of connection state that ranks every peer once, at distinct
/// addresses, leaves at most `MAX_UNCHOKED` peers unchoked besides one for
/// each new optimistic peer.
pub proof fn lemma_conn_state_bound(peers: Seq<(String, Peer)>, rates: Seq<(String, u32)>, opt: Seq<String>)
    requires
        keys(peers).no_duplicates(),
        rate_addrs(rates).no_duplicates(),
        all_known(keys(peers), rate_addrs(rates)),
        all_known(keys(peers), addr_views(opt)),
        forall|k: int| 0 <= k < peers.len() ==> rate_addrs(rates).contains(#[trigger] keys(peers)[k]),
    ensures
        count_true(unchoked_of(conn_state(peers, rates, opt).0)) <= MAX_UNCHOKED + opt.len(),
{
    let ks = keys(peers);
    let s = rate_addrs(rates);
    let flags = peer_flags(peers);
    assert(forall|k: int| 0 <= k < flags.len() ==> !(#[trigger] unchoked_outside(flags, ks, s)[k])) by {
        assert forall|k: int| 0 <= k < flags.len() implies !(#[trigger] unchoked_outside(flags, ks, s)[k]) by {
            assert(s.contains(ks[k]));
        }
    }
    lemma_count_true_none(unchoked_outside(flags, ks, s));
    lemma_choke_round_bound(ks, interest(peers), flags, Seq::empty(), 0, s, addr_views(opt));
    let (f, m) = choke_round(ks, interest(peers), flags, Seq::empty(), 0, s, addr_views(opt));
    lemma_optimistic_round_bound(ks, f, m, addr_views(opt));
}

/// Whether the peers are the same but for our choke state and optimistic
/// unchoke flag.
pub open spec fn same_but_flags(a: Seq<(String, Peer)>, b: Seq<(String, Peer)>) -> bool {
    &&& a.len() == b.len()
    &&& forall|k: int|
        0 <= k < a.len() ==> {
            &&& (#[trigger] a[k]).0 == b[k].0
            &&& a[k].1.id == b[k].1.id
            &&& a[k].1.pieces@ == b[k].1.pieces@
            &&& a[k].1.piece_index == b[k].1.piece_index
            &&& a[k].1.am_interested == b[k].1.am_interested
            &&& a[k].1.interested == b[k].1.interested
            &&& a[k].1.choked == b[k].1.choked
            &&& a[k].1.download_rate == b[k].1.download_rate
            &&& a[k].1.uploaded_rate == b[k].1.uploaded_rate
        }
}

/// Whether every address is one of the peers'.
pub open spec fn all_known(ks: Seq<Seq<char>>, addrs: Seq<Seq<char>>) -> bool {
    forall|t: int| 0 <= t < addrs.len() ==> key_index(ks, #[trigger] addrs[t]) >= 0
}

/// Replacing a peer under its own address keeps the addresses.
pub proof fn lemma_keys_update(peers: Seq<(String, Peer)>, i: int, p: Peer)
    requires
        0 <= i < peers.len(),
    ensures
        keys(peers.update(i, (peers[i].0, p))) == keys(peers),
{
    assert(keys(peers.update(i, (peers[i].0, p))) =~= keys(peers));
}

/// Peers that differ only in their flags have the same addresses.
pub proof fn lemma_keys_same_but_flags(a: Seq<(String, Peer)>, b: Seq<(String, Peer)>)
    requires
        same_but_flags(a, b),
    ensures
        keys(a) == keys(b),
{
    assert forall|k: int| 0 <= k < a.len() implies keys(a)[k] == keys(b)[k] by {
        assert(a[k].0 == b[k].0);
    }
    assert(keys(a) =~= keys(b));
}

/// Removing a peer removes its address, and keeps the addresses distinct.
pub proof fn lemma_keys_remove(peers: Seq<(String, Peer)>, i: int)
    requires
        0 <= i < peers.len(),
    ensures
        keys(peers.remove(i)) == keys(peers).remove(i),
        keys(peers).no_duplicates() ==> keys(peers.remove(i)).no_duplicates(),
{
    assert(keys(peers.remove(i)) =~= keys(peers).remove(i));
}

/// Putting a peer at the position of its address, or after all peers when
/// its address is new, keeps the addresses distinct.
pub proof fn lemma_keys_put(peers: Seq<(String, Peer)>, addr: String, p: Peer)
    requires
        keys(peers).no_duplicates(),
    ensures
        key_index(keys(peers), addr@) < 0 ==> keys(peers.push((addr, p))).no_duplicates(),
        key_index(keys(peers), addr@) >= 0 ==> keys(
            peers.update(key_index(keys(peers), addr@), (addr, p)),
        ) == keys(peers),
{
    let ks = keys(peers);
    lemma_key_index(ks, addr@);
    let i = key_index(ks, addr@);
    if i < 0 {
        assert(keys(peers.push((addr, p))) =~= ks.push(addr@));
    } else {
        assert(keys(peers.update(i, (addr, p))) =~= ks);
    }
}

/// The position of the first key, below the length.
pub proof fn lemma_key_index(ks: Seq<Seq<char>>, addr: Seq<char>)
    ensures
        -1 <= key_index(ks, addr) < ks.len(),
        key_index(ks, addr) >= 0 ==> ks[key_index(ks, addr)] == addr,
        key_index(ks, addr) == -1 <==> !ks.contains(addr),
    decreases ks.len(),
{
    if ks.len() > 0 {
        lemma_key_index(ks.drop_first(), addr);
        if ks[0] != addr {
            assert forall|t: int| 0 <= t < ks.len() && ks[t] == addr implies ks.drop_first().contains(addr) by {
                assert(ks.drop_first()[t - 1] == addr);
            }
            if ks.drop_first().contains(addr) {
                let t = choose|t: int| 0 <= t < ks.drop_first().len() && ks.drop_first()[t] == addr;
                assert(ks[t + 1] == addr);
            }
        }
    }
}

/// Whether an address is in a list.
fn contains_addr(v: &Vec<String>, a: &String) -> (r: bool)
    ensures
        r == addr_views(v@).contains(a@),
{
    let mut k: usize = 0;
    while k < v.len()
        invariant
            k <= v@.len(),
            forall|t: int| 0 <= t < k ==> v@[t]@ != a@,
        decreases v@.len() - k,
    {
        if v[k] == *a {
            assert(addr_views(v@)[k as int] == a@);
            return true;
        }
        k = k + 1;
    }
    proof {
        if addr_views(v@).contains(a@) {
            let t = choose|t: int| 0 <= t < addr_views(v@).len() && addr_views(v@)[t] == a@;
            assert(v@[t]@ == a@);
        }
    }
    false
}

/// Sets the value of a key in an association list.
fn map_insert(v: &mut Vec<(String, bool)>, k: &String, b: bool)
    ensures
        map_view(final(v)@) == assoc_insert(map_view(old(v)@), k@, b),
{
    let ghost ks = Seq::new(map_view(old(v)@).len(), |j: int| map_view(old(v)@)[j].0);
    let mut i: usize = 0;
    assert(ks.skip(0) =~= ks);
    while i < v.len()
        invariant
            i <= v@.len(),
            v@ == old(v)@,
            ks == Seq::new(map_view(old(v)@).len(), |j: int| map_view(old(v)@)[j].0),
            key_index(ks, k@) == (if key_index(ks.skip(i as int), k@) < 0 {
                -1
            } else {
                key_index(ks.skip(i as int), k@) + i
            }),
        decreases v@.len() - i,
    {
        assert(ks.skip(i as int).drop_first() =~= ks.skip(i + 1));
        if v[i].0 == *k {
            v.set(i, (k.clone(), b));
            assert(map_view(v@) =~= map_view(old(v)@).update(i as int, (k@, b)));
            return;
        }
        i = i + 1;
    }
    assert(ks.skip(i as int).len() == 0);
    v.push((k.clone(), b));
    assert(map_view(v@) =~= map_view(old(v)@).push((k@, b)));
}

/// Puts the peers' rates in descending order; peers with equal rates keep
/// their order.
fn sort_rates(rates: &mut Vec<(String, u32)>)
    ensures
        final(rates)@.to_multiset() == old(rates)@.to_multiset(),
        sorted_desc(final(rates)@),
{
    let mut out: Vec<(String, u32)> = Vec::new();
    while rates.len() > 0
        invariant
            out@.to_multiset().add(rates@.to_multiset()) == old(rates)@.to_multiset(),
            sorted_desc(out@),
        decreases rates@.len(),
    {
        let ghost before = rates@;
        let x = rates.remove(0);
        assert(rates@ == before.remove(0));
        let mut p: usize = 0;
        while p < out.len() && out[p].1 >= x.1
            invariant
                p <= out@.len(),
                forall|t: int| 0 <= t < p ==> out@[t].1 >= x.1,
            decreases out@.len() - p,
        {
            p = p + 1;
        }
        let ghost old_out = out@;
        out.insert(p, x);
        assert(out@ == old_out.insert(p as int, x));
        proof {
            assert forall|a: int, b: int| 0 <= a < b < out@.len() implies out@[a].1 >= out@[b].1 by {
                if p < old_out.len() {
                    assert(old_out[p as int].1 < x.1);
                }
                if a < p && b == p {
                } else if a < p && b > p {
                    assert(out@[b] == old_out[b - 1]);
                } else if a == p && b > p {
                    assert(out@[b] == old_out[b - 1]);
                    assert(old_out[p as int].1 >= old_out[b - 1].1 || b - 1 == p);
                } else if a > p {
                    assert(out@[a] == old_out[a - 1]);
                    assert(out@[b] == old_out[b - 1]);
                }
            }
            assert(out@.to_multiset() == old_out.to_multiset().insert(x));
            assert(rates@.to_multiset() == before.to_multiset().remove(x));
            assert(before.to_multiset().count(x) > 0) by {
                assert(before[0] == x);
                assert(before.contains(x));
            }
            assert(out@.to_multiset().add(rates@.to_multiset()) =~= old_out.to_multiset().add(
                before.to_multiset(),
            ));
        }
    }
    assert(rates@.to_multiset() =~= vstd::multiset::Multiset::empty());
    assert(out@.to_multiset().add(rates@.to_multiset()) =~= out@.to_multiset());
    *rates = out;
}

/// Sets our choke state and optimistic unchoke flag of a peer.
fn set_peer_flags(peers: &mut Vec<(String, Peer)>, i: usize, am_choked: bool, optimistic: bool)
    requires
        i < old(peers)@.len(),
    ensures
        same_but_flags(final(peers)@, old(peers)@),
        peer_flags(final(peers)@) == peer_flags(old(peers)@).update(i as int, (am_choked, optimistic)),
        keys(final(peers)@) == keys(old(peers)@),
        interest(final(peers)@) == interest(old(peers)@),
{
    let (a, mut p) = peers.remove(i);
    p.am_choked = am_choked;
    p.optimistic_unchoke = optimistic;
    peers.insert(i, (a, p));
    assert(peer_flags(peers@) =~= peer_flags(old(peers)@).update(i as int, (am_choked, optimistic)));
    assert(keys(peers@) =~= keys(old(peers)@));
    assert(interest(peers@) =~= interest(old(peers)@));
}


/// What to do once a peer is gone.
#[derive(PartialEq, Eq, Structural, Clone, Copy, Debug)]
pub enum KillAction {
    /// Every piece is here: put the files together.
    SpawnExtractor,
    /// Every piece is here and the files were put together already.
    Idle,
    /// No peer is left to try: ask the tracker again.
    SpawnTracker,
    /// Connect to the next peer proposed by the tracker.
    SpawnPeer,
}

/// Whether every piece is here.
pub open spec fn all_have(st: Seq<Status>) -> bool {
    forall|i: int| 0 <= i < st.len() ==> st[i] == Status::Have
}

/// The number of peers we are not interested in.
pub open spec fn not_interested_count(peers: Seq<(String, Peer)>) -> int
    decreases peers.len(),
{
    if peers.len() == 0 {
        0
    } else {
        not_interested_count(peers.drop_last()) + (if !peers.last().1.am_interested {
            1int
        } else {
            0int
        })
    }
}

/// The number of peers we are interested in.
pub open spec fn interested_count(peers: Seq<(String, Peer)>) -> int
    decreases peers.len(),
{
    if peers.len() == 0 {
        0
    } else {
        interested_count(peers.drop_last()) + (if peers.last().1.am_interested {
            1int
        } else {
            0int
        })
    }
}

/// Whether a peer may be unchoked optimistically: we choke it and it is
/// interested.
pub open spec fn optimistic_candidate(p: Peer) -> bool {
    p.am_choked && p.interested
}

/// Whether every peer reported both rates.
pub open spec fn all_reported(peers: Seq<(String, Peer)>) -> bool {
    forall|k: int|
        0 <= k < peers.len() ==> (#[trigger] peers[k]).1.download_rate is Some
            && peers[k].1.uploaded_rate is Some
}

/// The rate by which a peer is ranked: what we download from it, or what
/// it downloads from us once we have everything.
pub open spec fn rate_of(p: Peer, seeder: bool) -> u32 {
    if seeder {
        p.download_rate->0
    } else {
        p.uploaded_rate->0
    }
}

/// The rates of the peers, in the order of the peers.
pub open spec fn rates_of(peers: Seq<(String, Peer)>, seeder: bool) -> Seq<(String, u32)> {
    Seq::new(peers.len(), |k: int| (peers[k].0, rate_of(peers[k].1, seeder)))
}

/// Whether `opt` can be the new optimistic peers: none, or one peer that
/// may be unchoked optimistically, which there is if there is any.
pub open spec fn optimistic_ok(peers: Seq<(String, Peer)>, opt: Seq<String>) -> bool {
    &&& opt.len() <= 1
    &&& opt.len() == 0 <==> !exists|k: int| 0 <= k < peers.len() && optimistic_candidate(#[trigger] peers[k].1)
    &&& opt.len() == 1 ==> exists|k: int|
        0 <= k < peers.len() && optimistic_candidate(#[trigger] peers[k].1) && peers[k].0@ == opt[0]@
}

/// Whether some of the first `k` peers may be unchoked optimistically and
/// has the address `a`.
pub open spec fn elig_known(peers: Seq<(String, Peer)>, k: int, a: Seq<char>) -> bool {
    exists|q: int| 0 <= q < k && optimistic_candidate(#[trigger] peers[q].1) && peers[q].0@ == a
}

/// The text of the peers' states: each peer's two letters after a `|`,
/// and a closing `|`; empty without peers.
pub open spec fn state_text(peers: Seq<(String, Peer)>) -> Seq<char> {
    if peers.len() == 0 {
        Seq::empty()
    } else {
        state_parts(peers) + "|"@
    }
}

/// Each peer's two letters after a `|`.
pub open spec fn state_parts(peers: Seq<(String, Peer)>) -> Seq<char>
    decreases peers.len(),
{
    if peers.len() == 0 {
        Seq::empty()
    } else {
        state_parts(peers.drop_last()) + "|"@ + seq![
            crate::peer::own_state_char(peers.last().1),
            crate::peer::peer_state_char(peers.last().1),
        ]
    }
}

/// The first `n` bits of a bitfield, as flags.
pub open spec fn flags_of(bytes: Seq<u8>, n: nat) -> Seq<bool> {
    Seq::new(n, |k: int| bit_at(bytes, k))
}

/// Whether `b` is `a` with the peer at `i` replaced by `p`.
pub open spec fn peer_updated(a: Seq<(String, Peer)>, b: Seq<(String, Peer)>, i: int, p: Peer) -> bool {
    &&& 0 <= i < a.len()
    &&& b == a.update(i, (a[i].0, p))
}

/// Whether a peer keeps the shape that the session's consistency asks for.
pub open spec fn peer_fits(p: Peer, n: int) -> bool {
    &&& p.pieces@.len() == n
    &&& crate::peer::in_range(p.piece_index, n)
}

/// Puts back a peer taken out at `i`.
fn put_peer(peers: &mut Vec<(String, Peer)>, i: usize, addr: String, p: Peer)
    requires
        i <= old(peers)@.len(),
    ensures
        final(peers)@ == old(peers)@.insert(i as int, (addr, p)),
{
    peers.insert(i, (addr, p));
}


/// Whether piece `i` may be asked for from a peer that has `pieces`: one
/// worth asking for, that the peer has.
pub open spec fn candidate_in(peers: Seq<(String, Peer)>, st: Seq<Status>, pieces: Seq<bool>, i: int) -> bool {
    &&& 0 <= i < st.len()
    &&& desired(st, i)
    &&& have_count(peers, i) > 0
    &&& pieces[i]
}

/// Whether `c` is a choice of piece for the peer at `addr`: none when no
/// piece may be asked for, else one that may, and that no fewer peers have
/// than any other that may (rarest first).
pub open spec fn choice_ok_in(peers: Seq<(String, Peer)>, st: Seq<Status>, addr: Seq<char>, c: Option<usize>) -> bool {
    let pieces = peers[key_index(keys(peers), addr)].1.pieces@;
    &&& c is None <==> !exists|i: int| candidate_in(peers, st, pieces, i)
    &&& c matches Some(i) ==> {
        &&& candidate_in(peers, st, pieces, i as int)
        &&& forall|j: int|
            candidate_in(peers, st, pieces, j) ==> have_count(peers, i as int) <= have_count(peers, j)
    }
}

/// What may be chosen: a piece that the peer has and that we do not have;
/// outside end game (at least `END_GAME_LIMIT` pieces not had) only a piece
/// that nobody is downloading yet (`Missing`), never one already `Reserved`.
/// A piece is chosen whenever one qualifies that some peer has.
pub proof fn lemma_choice_status(peers: Seq<(String, Peer)>, st: Seq<Status>, addr: Seq<char>, c: Option<usize>)
    requires
        choice_ok_in(peers, st, addr, c),
    ensures
        c matches Some(i) ==> i < st.len() && st[i as int] != Status::Have
            && peers[key_index(keys(peers), addr)].1.pieces@[i as int],
        c matches Some(i) ==> (missing_count(st) >= END_GAME_LIMIT ==> st[i as int] == Status::Missing),
        forall|i: int|
            0 <= i < st.len() && #[trigger] st[i] == Status::Missing && peers[key_index(
                keys(peers),
                addr,
            )].1.pieces@[i] && have_count(peers, i) > 0 ==> c is Some,
        forall|i: int|
            0 <= i < st.len() && #[trigger] st[i] != Status::Have && peers[key_index(
                keys(peers),
                addr,
            )].1.pieces@[i] && have_count(peers, i) > 0 && missing_count(st) < END_GAME_LIMIT
                ==> c is Some,
{
    let pieces = peers[key_index(keys(peers), addr)].1.pieces@;
    assert forall|i: int|
        0 <= i < st.len() && #[trigger] st[i] == Status::Missing && pieces[i] && have_count(peers, i) > 0
            implies c is Some by {
        assert(candidate_in(peers, st, pieces, i));
    }
    assert forall|i: int|
        0 <= i < st.len() && #[trigger] st[i] != Status::Have && pieces[i] && have_count(peers, i) > 0
            && missing_count(st) < END_GAME_LIMIT implies c is Some by {
        assert(candidate_in(peers, st, pieces, i));
    }
}

impl Session {
    /// The consistency of the state: one status per piece, a flag per piece
    /// for each peer, the piece of a peer one of the torrent's, and the
    /// lengths of pieces computable.
    pub open spec fn wf(&self) -> bool {
        &&& self.metainfo.wf()
        &&& self.pieces_status@.len() == self.metainfo.pieces@.len()
        &&& self.round < MAX_OPTIMISTIC_ROUNDS
        &&& keys(self.peers@).no_duplicates()
        &&& forall|k: int|
            0 <= k < self.peers@.len() ==> peer_fits(
                #[trigger] self.peers@[k].1,
                self.pieces_status@.len() as int,
            )
    }

    /// Whether piece `i` may be asked for from a peer that has `pieces`.
    pub open spec fn candidate(&self, pieces: Seq<bool>, i: int) -> bool {
        candidate_in(self.peers@, self.pieces_status@, pieces, i)
    }

    /// Whether `c` is a choice that `choose_piece_index` can make for the
    /// peer at `addr`.
    pub open spec fn choice_ok(&self, addr: Seq<char>, c: Option<usize>) -> bool {
        choice_ok_in(self.peers@, self.pieces_status@, addr, c)
    }

    /// Whether the other session is the same but for the peers and the
    /// pieces' states.
    pub open spec fn same_rest(&self, other: &Session) -> bool {
        &&& self.own_id == other.own_id
        &&& self.metainfo == other.metainfo
        &&& self.candidates@ == other.candidates@
        &&& self.round == other.round
        &&& self.files_extracted == other.files_extracted
    }

    /// A new session: every piece missing, no peer.
    pub fn new(metainfo: Metainfo, own_id: [u8; PEER_ID_SIZE]) -> (r: Session)
        ensures
            r.own_id == own_id,
            r.metainfo == metainfo,
            r.pieces_status@ == Seq::new(metainfo.pieces@.len(), |i: int| Status::Missing),
            r.peers@.len() == 0,
            r.candidates@.len() == 0,
            r.round == 0,
            !r.files_extracted,
            metainfo.wf() ==> r.wf(),
    {
        let mut pieces_status: Vec<Status> = Vec::new();
        let n = metainfo.pieces_num();
        let mut i: usize = 0;
        while i < n
            invariant
                i <= n,
                pieces_status@ == Seq::new(i as nat, |j: int| Status::Missing),
            decreases n - i,
        {
            pieces_status.push(Status::Missing);
            i = i + 1;
            assert(pieces_status@ =~= Seq::new(i as nat, |j: int| Status::Missing));
        }
        Session {
            own_id,
            pieces_status,
            peers: Vec::new(),
            metainfo,
            candidates: Vec::new(),
            round: 0,
            files_extracted: false,
        }
    }

    /// The position of the peer with an address.
    pub fn find_peer(&self, addr: &String) -> (r: Option<usize>)
        ensures
            match r {
                Some(k) => k == key_index(keys(self.peers@), addr@) && k < self.peers@.len(),
                None => key_index(keys(self.peers@), addr@) == -1,
            },
    {
        let mut k: usize = 0;
        assert(keys(self.peers@).skip(0) =~= keys(self.peers@));
        while k < self.peers.len()
            invariant
                k <= self.peers@.len(),
                key_index(keys(self.peers@), addr@) == (if key_index(keys(self.peers@).skip(k as int), addr@)
                    < 0 {
                    -1
                } else {
                    key_index(keys(self.peers@).skip(k as int), addr@) + k
                }),
            decreases self.peers@.len() - k,
        {
            let ghost ks = keys(self.peers@).skip(k as int);
            assert(ks.drop_first() =~= keys(self.peers@).skip(k + 1));
            if self.peers[k].0 == *addr {
                return Some(k);
            }
            k = k + 1;
        }
        assert(keys(self.peers@).skip(k as int).len() == 0);
        None
    }

    /// The number of peers that we unchoked optimistically.
    pub fn unchoked_num(&self) -> (r: usize)
        ensures
            r == optimistic_count(self.peers@),
    {
        let mut n: usize = 0;
        let mut k: usize = 0;
        while k < self.peers.len()
            invariant
                k <= self.peers@.len(),
                n == optimistic_count(self.peers@.subrange(0, k as int)),
                n <= k,
            decreases self.peers@.len() - k,
        {
            assert(self.peers@.subrange(0, k + 1).drop_last() =~= self.peers@.subrange(0, k as int));
            if !self.peers[k].1.am_choked && self.peers[k].1.optimistic_unchoke {
                n = n + 1;
            }
            k = k + 1;
        }
        assert(self.peers@.subrange(0, self.peers@.len() as int) =~= self.peers@);
        n
    }

    /// Chooses the piece to ask the peer at `addr` for: one it has that is
    /// worth asking for, and among those one that the fewest peers have
    /// (rarest first); ties are broken at random.
    pub fn choose_piece_index(&self, addr: &String) -> (r: Option<usize>)
        requires
            self.wf(),
            key_index(keys(self.peers@), addr@) >= 0,
        ensures
            self.choice_ok(addr@, r),
            r matches Some(i) ==> i < self.pieces_status@.len() && self.pieces_status@[i as int]
                != Status::Have,
            r matches Some(i) ==> (missing_count(self.pieces_status@) >= END_GAME_LIMIT
                ==> self.pieces_status@[i as int] == Status::Missing),
    {
        let r = self.rarest_piece_index(addr);
        proof {
            lemma_choice_status(self.peers@, self.pieces_status@, addr@, r);
        }
        r
    }

    /// A piece worth asking the peer at `addr` for, the rarest, ties broken
    /// at random.
    fn rarest_piece_index(&self, addr: &String) -> (r: Option<usize>)
        requires
            self.wf(),
            key_index(keys(self.peers@), addr@) >= 0,
        ensures
            self.choice_ok(addr@, r),
    {
        let pi = match self.find_peer(addr) {
            Some(k) => k,
            None => {
                return None;
            },
        };
        let ghost pieces = self.peers@[pi as int].1.pieces@;
        let n = self.pieces_status.len();
        let counts = self.piece_counts();
        let still_missing = self.missing_num();
        let mut rarest: Vec<(usize, usize)> = Vec::new();
        let mut i: usize = 0;
        while i < n
            invariant
                self.wf(),
                n == self.pieces_status@.len(),
                i <= n,
                still_missing == missing_count(self.pieces_status@),
                counts@.len() == n,
                forall|j: int| 0 <= j < n ==> counts@[j] == have_count(self.peers@, j),
                forall|q: int|
                    0 <= q < rarest@.len() ==> {
                        &&& (#[trigger] rarest@[q]).0 < i
                        &&& desired(self.pieces_status@, rarest@[q].0 as int)
                        &&& rarest@[q].1 == have_count(self.peers@, rarest@[q].0 as int)
                    },
                forall|j: int|
                    0 <= j < i && desired(self.pieces_status@, j) ==> exists|q: int|
                        0 <= q < rarest@.len() && #[trigger] rarest@[q] == (j as usize, counts@[j]),
            decreases n - i,
        {
            let wanted = if still_missing < END_GAME_LIMIT {
                self.pieces_status[i] != Status::Have
            } else {
                self.pieces_status[i] == Status::Missing
            };
            let ghost old_rarest = rarest@;
            if wanted {
                rarest.push((i, counts[i]));
                assert(rarest@[rarest@.len() - 1] == (i, counts@[i as int]));
            }
            proof {
                assert forall|j: int|
                    0 <= j < i + 1 && desired(self.pieces_status@, j) implies exists|q: int|
                        0 <= q < rarest@.len() && #[trigger] rarest@[q] == (j as usize, counts@[j]) by {
                    if j < i {
                        let q0 = choose|q: int|
                            0 <= q < old_rarest.len() && #[trigger] old_rarest[q] == (
                                j as usize,
                                counts@[j],
                            );
                        assert(rarest@[q0] == old_rarest[q0]);
                    } else {
                        assert(rarest@[rarest@.len() - 1] == (j as usize, counts@[j]));
                    }
                }
            }
            i = i + 1;
        }
        let ghost before = rarest@;
        shuffle_pairs(&mut rarest);
        proof {
            assert forall|x: (usize, usize)| rarest@.contains(x) <==> before.contains(x) by {
                assert(rarest@.to_multiset().count(x) == before.to_multiset().count(x));
            }
            assert forall|t: int|
                0 <= t < rarest@.len() implies {
                    &&& (#[trigger] rarest@[t]).0 < n
                    &&& desired(self.pieces_status@, rarest@[t].0 as int)
                    &&& rarest@[t].1 == have_count(self.peers@, rarest@[t].0 as int)
                } by {
                assert(rarest@.contains(rarest@[t]));
                assert(before.contains(rarest@[t]));
                let q = choose|q: int| 0 <= q < before.len() && before[q] == rarest@[t];
                assert(before[q] == rarest@[t]);
            }
        }
        let peer_pieces = &self.peers[pi].1.pieces;
        let mut best: Option<(usize, usize)> = None;
        let mut q: usize = 0;
        while q < rarest.len()
            invariant
                self.wf(),
                0 <= pi < self.peers@.len(),
                peer_pieces@ == pieces,
                pieces.len() == n,
                n == self.pieces_status@.len(),
                q <= rarest@.len(),
                forall|t: int|
                    0 <= t < rarest@.len() ==> {
                        &&& (#[trigger] rarest@[t]).0 < n
                        &&& desired(self.pieces_status@, rarest@[t].0 as int)
                        &&& rarest@[t].1 == have_count(self.peers@, rarest@[t].0 as int)
                    },
                best is None ==> forall|t: int|
                    0 <= t < q ==> !((#[trigger] rarest@[t]).1 > 0 && pieces[rarest@[t].0 as int]),
                best matches Some(b) ==> {
                    &&& rarest@.contains(b)
                    &&& b.1 > 0
                    &&& pieces[b.0 as int]
                    &&& forall|t: int|
                        0 <= t < q && (#[trigger] rarest@[t]).1 > 0 && pieces[rarest@[t].0 as int]
                            ==> b.1 <= rarest@[t].1
                },
            decreases rarest@.len() - q,
        {
            let x = rarest[q];
            if x.1 > 0 && peer_pieces[x.0] {
                let better = match best {
                    Some(b) => x.1 < b.1,
                    None => true,
                };
                if better {
                    best = Some(x);
                }
            }
            q = q + 1;
        }
        proof {
            assert(pi == key_index(keys(self.peers@), addr@));
            assert forall|j: int| candidate_in(self.peers@, self.pieces_status@, pieces, j) implies (exists|t: int|
                0 <= t < rarest@.len() && rarest@[t] == (j as usize, counts@[j])) by {
                let q0 = choose|q: int|
                    0 <= q < before.len() && #[trigger] before[q] == (j as usize, counts@[j]);
                assert(before[q0] == (j as usize, counts@[j]));
                assert(before.contains((j as usize, counts@[j])));
                assert(rarest@.contains((j as usize, counts@[j])));
            }
        }
        match best {
            Some(b) => {
                proof {
                    let t0 = choose|t: int| 0 <= t < rarest@.len() && rarest@[t] == b;
                    assert(rarest@[t0] == b);
                    assert(candidate_in(self.peers@, self.pieces_status@, pieces, b.0 as int));
                    assert(pieces == self.peers@[key_index(keys(self.peers@), addr@)].1.pieces@);
                    assert(candidate_in(self.peers@, self.pieces_status@, pieces, b.0 as int));
                    assert forall|j: int| candidate_in(self.peers@, self.pieces_status@, pieces, j) implies have_count(
                        self.peers@,
                        b.0 as int,
                    ) <= have_count(self.peers@, j) by {
                        let t = choose|t: int|
                            0 <= t < rarest@.len() && rarest@[t] == (j as usize, counts@[j]);
                        assert(rarest@[t].1 > 0 && pieces[rarest@[t].0 as int]);
                    }
                    assert(forall|j: int|
                        candidate_in(self.peers@, self.pieces_status@, pieces, j) ==> have_count(self.peers@, b.0 as int) <= have_count(self.peers@, j));
                    assert(exists|i: int| candidate_in(self.peers@, self.pieces_status@, pieces, i));
                }
                Some(b.0)
            },
            None => {
                proof {
                    if exists|i: int| candidate_in(self.peers@, self.pieces_status@, pieces, i) {
                        let j = choose|i: int| candidate_in(self.peers@, self.pieces_status@, pieces, i);
                        let t = choose|t: int|
                            0 <= t < rarest@.len() && rarest@[t] == (j as usize, counts@[j]);
                        assert(rarest@[t].1 > 0 && pieces[rarest@[t].0 as int]);
                    }
                }
                None
            },
        }
    }

    /// Changes our choke state towards the peers, taken in descending order
    /// of rate (`rates` comes back in that order): the interested peers with
    /// the best rates are unchoked up to the maximum, the others choked, and
    /// the new optimistic peers unchoked. Returns the changes to announce.
    /// An address that is not a peer's is an error, and then nothing changes.
    pub fn change_conn_state(&mut self, rates: &mut Vec<(String, u32)>, new_optimistic: &Vec<String>) -> (r:
        Result<BroadCmd, Error>)
        ensures
            final(rates)@.to_multiset() == old(rates)@.to_multiset(),
            sorted_desc(final(rates)@),
            final(self).pieces_status@ == old(self).pieces_status@,
            final(self).metainfo == old(self).metainfo,
            final(self).candidates@ == old(self).candidates@,
            final(self).round == old(self).round,
            final(self).own_id == old(self).own_id,
            final(self).files_extracted == old(self).files_extracted,
            same_but_flags(final(self).peers@, old(self).peers@),
            ({
                let ks = keys(old(self).peers@);
                if all_known(ks, rate_addrs(final(rates)@)) && all_known(ks, addr_views(new_optimistic@)) {
                    let (flags, map) = conn_state(old(self).peers@, final(rates)@, new_optimistic@);
                    &&& r matches Ok(BroadCmd::SendOwnState { am_choked_map }) && map_view(am_choked_map@) == map
                    &&& peer_flags(final(self).peers@) == flags
                    &&& announced_ok(ks, flags, map)
                } else {
                    &&& r == Err::<BroadCmd, Error>(Error::PeerNotFound)
                    &&& final(self).peers@ == old(self).peers@
                }
            }),
    {
        sort_rates(rates);
        let ghost ks = keys(self.peers@);
        let ghost inter = interest(self.peers@);
        let ghost opt = addr_views(new_optimistic@);
        let ghost old_peers = self.peers@;
        // Every address must be a peer's.
        let mut t: usize = 0;
        while t < rates.len()
            invariant
                t <= rates@.len(),
                self.peers@ == old_peers,
                ks == keys(self.peers@),
                rates@.to_multiset() == old(rates)@.to_multiset(),
                sorted_desc(rates@),
                forall|u: int| 0 <= u < t ==> key_index(ks, #[trigger] rate_addrs(rates@)[u]) >= 0,
            decreases rates@.len() - t,
        {
            if self.find_peer(&rates[t].0).is_none() {
                assert(key_index(ks, rate_addrs(rates@)[t as int]) == -1);
                return Err(Error::PeerNotFound);
            }
            t = t + 1;
        }
        let mut t: usize = 0;
        while t < new_optimistic.len()
            invariant
                t <= new_optimistic@.len(),
                self.peers@ == old_peers,
                ks == keys(self.peers@),
                opt == addr_views(new_optimistic@),
                rates@.to_multiset() == old(rates)@.to_multiset(),
                sorted_desc(rates@),
                all_known(ks, rate_addrs(rates@)),
                forall|u: int| 0 <= u < t ==> key_index(ks, #[trigger] opt[u]) >= 0,
            decreases new_optimistic@.len() - t,
        {
            if self.find_peer(&new_optimistic[t]).is_none() {
                assert(key_index(ks, opt[t as int]) == -1);
                return Err(Error::PeerNotFound);
            }
            t = t + 1;
        }
        let ghost addrs = rate_addrs(rates@);
        let mut map: Vec<(String, bool)> = Vec::new();
        let mut count: usize = 0;
        let some_optimistic = new_optimistic.len() > 0;
        let mut j: usize = 0;
        assert(addrs.skip(0) =~= addrs);
        assert(map_view(map@) =~= Seq::<(Seq<char>, bool)>::empty());
        while j < rates.len()
            invariant
                j <= rates@.len(),
                addrs == rate_addrs(rates@),
                opt == addr_views(new_optimistic@),
                some_optimistic == (opt.len() > 0),
                all_known(ks, addrs),
                all_known(ks, opt),
                rates@.to_multiset() == old(rates)@.to_multiset(),
                sorted_desc(rates@),
                ks == keys(self.peers@),
                inter == interest(self.peers@),
                same_but_flags(self.peers@, old_peers),
                count <= MAX_UNCHOKED,
                choke_round(ks, inter, peer_flags(old_peers), Seq::empty(), 0, addrs, opt)
                    == choke_round(ks, inter, peer_flags(self.peers@), map_view(map@), count as int, addrs.skip(j as int), opt),
                self.pieces_status@ == old(self).pieces_status@,
                self.metainfo == old(self).metainfo,
                self.candidates@ == old(self).candidates@,
                self.round == old(self).round,
                self.own_id == old(self).own_id,
                self.files_extracted == old(self).files_extracted,
            decreases rates@.len() - j,
        {
            let addr = &rates[j].0;
            proof {
                assert(addrs.skip(j as int)[0] == addr@);
                assert(addrs.skip(j as int).drop_first() =~= addrs.skip(j + 1));
                assert(key_index(ks, addrs[j as int]) >= 0);
                lemma_key_index(ks, addr@);
            }
            let i = match self.find_peer(addr) {
                Some(i) => i,
                None => {
                    return Err(Error::PeerNotFound);
                },
            };
            let c = self.peers[i].1.am_choked;
            let it = self.peers[i].1.interested;
            let o = self.peers[i].1.optimistic_unchoke;
            let mut c2 = c;
            if count < MAX_UNCHOKED {
                if c && it && !contains_addr(new_optimistic, addr) {
                    c2 = false;
                    map_insert(&mut map, addr, false);
                    count = count + 1;
                } else if !c && it {
                    count = count + 1;
                } else if !c && !it {
                    c2 = true;
                    map_insert(&mut map, addr, true);
                }
            } else if !c {
                c2 = true;
                map_insert(&mut map, addr, true);
            }
            let o2 = if some_optimistic {
                false
            } else {
                o
            };
            set_peer_flags(&mut self.peers, i, c2, o2);
            j = j + 1;
        }
        assert(addrs.skip(j as int) =~= Seq::<Seq<char>>::empty());
        let ghost mid = choke_round(ks, inter, peer_flags(old_peers), Seq::empty(), 0, addrs, opt);
        let mut t: usize = 0;
        assert(opt.skip(0) =~= opt);
        while t < new_optimistic.len()
            invariant
                t <= new_optimistic@.len(),
                opt == addr_views(new_optimistic@),
                forall|u: int| 0 <= u < opt.len() ==> key_index(ks, #[trigger] opt[u]) >= 0,
                rates@.to_multiset() == old(rates)@.to_multiset(),
                sorted_desc(rates@),
                all_known(ks, rate_addrs(rates@)),
                mid == choke_round(ks, inter, peer_flags(old_peers), Seq::empty(), 0, rate_addrs(rates@), opt),
                ks == keys(self.peers@),
                same_but_flags(self.peers@, old_peers),
                optimistic_round(ks, mid.0, mid.1, opt) == optimistic_round(
                    ks,
                    peer_flags(self.peers@),
                    map_view(map@),
                    opt.skip(t as int),
                ),
                self.pieces_status@ == old(self).pieces_status@,
                self.metainfo == old(self).metainfo,
                self.candidates@ == old(self).candidates@,
                self.round == old(self).round,
                self.own_id == old(self).own_id,
                self.files_extracted == old(self).files_extracted,
            decreases new_optimistic@.len() - t,
        {
            let addr = &new_optimistic[t];
            proof {
                assert(opt.skip(t as int)[0] == addr@);
                assert(opt.skip(t as int).drop_first() =~= opt.skip(t + 1));
                assert(key_index(ks, opt[t as int]) >= 0);
                lemma_key_index(ks, addr@);
            }
            let i = match self.find_peer(addr) {
                Some(i) => i,
                None => {
                    return Err(Error::PeerNotFound);
                },
            };
            set_peer_flags(&mut self.peers, i, false, true);
            map_insert(&mut map, addr, false);
            t = t + 1;
        }
        assert(opt.skip(t as int) =~= Seq::<Seq<char>>::empty());
        proof {
            lemma_conn_state_announced(old_peers, rates@, new_optimistic@);
        }
        Ok(BroadCmd::SendOwnState { am_choked_map: map })
    }

    /// The handshake with the peer at `addr` is done.
    pub fn handle_init(&mut self, addr: &String, peer_id: [u8; PEER_ID_SIZE]) -> (r: Result<InitCmd, Error>)
        requires
            old(self).wf(),
        ensures
            final(self).wf(),
            final(self).same_rest(&*old(self)),
            final(self).pieces_status@ == old(self).pieces_status@,
            ({
                let i = key_index(keys(old(self).peers@), addr@);
                if i < 0 {
                    r == Err::<InitCmd, Error>(Error::PeerNotFound) && final(self).peers@ == old(self).peers@
                } else {
                    &&& r is Ok
                    &&& peer_updated(old(self).peers@, final(self).peers@, i, final(self).peers@[i].1)
                    &&& init_spec(old(self).peers@[i].1, final(self).peers@[i].1, peer_id, old(self).pieces_status@, r->Ok_0)
                }
            }),
    {
        let i = match self.find_peer(addr) {
            Some(i) => i,
            None => return Err(Error::PeerNotFound),
        };
        let (a, mut p) = self.peers.remove(i);
        let cmd = p.handle_init(peer_id, &self.pieces_status);
        put_peer(&mut self.peers, i, a, p);
        proof {
            assert(self.peers@ =~= old(self).peers@.update(i as int, (old(self).peers@[i as int].0, self.peers@[i as int].1)));
            lemma_keys_update(old(self).peers@, i as int, self.peers@[i as int].1);
            assert forall|k: int| 0 <= k < self.peers@.len() implies peer_fits(#[trigger] self.peers@[k].1, self.pieces_status@.len() as int) by {
                if k != i {
                    assert(self.peers@[k] == old(self).peers@[k]);
                }
            }
        }
        Ok(cmd)
    }

    /// The peer at `addr` choked us.
    pub fn handle_choke(&mut self, addr: &String) -> (r: Result<(), Error>)
        requires
            old(self).wf(),
        ensures
            final(self).wf(),
            final(self).same_rest(&*old(self)),
            ({
                let i = key_index(keys(old(self).peers@), addr@);
                if i < 0 {
                    &&& r == Err::<(), Error>(Error::PeerNotFound)
                    &&& final(self).peers@ == old(self).peers@
                    &&& final(self).pieces_status@ == old(self).pieces_status@
                } else {
                    &&& r is Ok
                    &&& peer_updated(old(self).peers@, final(self).peers@, i, final(self).peers@[i].1)
                    &&& choke_spec(old(self).peers@[i].1, final(self).peers@[i].1, old(self).pieces_status@, final(self).pieces_status@)
                }
            }),
    {
        let i = match self.find_peer(addr) {
            Some(i) => i,
            None => return Err(Error::PeerNotFound),
        };
        let (a, mut p) = self.peers.remove(i);
        p.handle_choke(&mut self.pieces_status);
        put_peer(&mut self.peers, i, a, p);
        proof {
            assert(self.peers@ =~= old(self).peers@.update(i as int, (old(self).peers@[i as int].0, self.peers@[i as int].1)));
            lemma_keys_update(old(self).peers@, i as int, self.peers@[i as int].1);
            assert forall|k: int| 0 <= k < self.peers@.len() implies peer_fits(#[trigger] self.peers@[k].1, self.pieces_status@.len() as int) by {
                if k != i {
                    assert(self.peers@[k] == old(self).peers@[k]);
                }
            }
        }
        Ok(())
    }

    /// The peer at `addr` unchoked us: ask it for a piece chosen for it.
    pub fn handle_unchoke(&mut self, addr: &String) -> (r: Result<UnchokeCmd, Error>)
        requires
            old(self).wf(),
        ensures
            final(self).wf(),
            final(self).same_rest(&*old(self)),
            ({
                let i = key_index(keys(old(self).peers@), addr@);
                if i < 0 {
                    &&& r == Err::<UnchokeCmd, Error>(Error::PeerNotFound)
                    &&& final(self).peers@ == old(self).peers@
                    &&& final(self).pieces_status@ == old(self).pieces_status@
                } else {
                    &&& r is Ok
                    &&& peer_updated(old(self).peers@, final(self).peers@, i, final(self).peers@[i].1)
                    &&& old(self).choice_ok(addr@, final(self).peers@[i].1.piece_index)
                    &&& unchoke_spec(
                        old(self).peers@[i].1,
                        final(self).peers@[i].1,
                        final(self).peers@[i].1.piece_index,
                        old(self).pieces_status@,
                        final(self).pieces_status@,
                        old(self).metainfo,
                        r->Ok_0,
                    )
                }
            }),
    {
        let i = match self.find_peer(addr) {
            Some(i) => i,
            None => return Err(Error::PeerNotFound),
        };
        let chosen = self.choose_piece_index(addr);
        let (a, mut p) = self.peers.remove(i);
        let cmd = p.handle_unchoke(chosen, &mut self.pieces_status, &self.metainfo);
        put_peer(&mut self.peers, i, a, p);
        proof {
            assert(self.peers@ =~= old(self).peers@.update(i as int, (old(self).peers@[i as int].0, self.peers@[i as int].1)));
            lemma_keys_update(old(self).peers@, i as int, self.peers@[i as int].1);
            assert forall|k: int| 0 <= k < self.peers@.len() implies peer_fits(#[trigger] self.peers@[k].1, self.pieces_status@.len() as int) by {
                if k != i {
                    assert(self.peers@[k] == old(self).peers@[k]);
                }
            }
        }
        Ok(cmd)
    }

    /// The peer at `addr` is interested in our pieces.
    pub fn handle_interested(&mut self, addr: &String) -> (r: Result<(), Error>)
        requires
            old(self).wf(),
        ensures
            final(self).wf(),
            final(self).same_rest(&*old(self)),
            final(self).pieces_status@ == old(self).pieces_status@,
            ({
                let i = key_index(keys(old(self).peers@), addr@);
                if i < 0 {
                    r == Err::<(), Error>(Error::PeerNotFound) && final(self).peers@ == old(self).peers@
                } else {
                    &&& r is Ok
                    &&& peer_updated(old(self).peers@, final(self).peers@, i, final(self).peers@[i].1)
                    &&& interested_spec(old(self).peers@[i].1, final(self).peers@[i].1)
                }
            }),
    {
        let i = match self.find_peer(addr) {
            Some(i) => i,
            None => return Err(Error::PeerNotFound),
        };
        let (a, mut p) = self.peers.remove(i);
        p.handle_interested();
        put_peer(&mut self.peers, i, a, p);
        proof {
            assert(self.peers@ =~= old(self).peers@.update(i as int, (old(self).peers@[i as int].0, self.peers@[i as int].1)));
            lemma_keys_update(old(self).peers@, i as int, self.peers@[i as int].1);
            assert forall|k: int| 0 <= k < self.peers@.len() implies peer_fits(#[trigger] self.peers@[k].1, self.pieces_status@.len() as int) by {
                if k != i {
                    assert(self.peers@[k] == old(self).peers@[k]);
                }
            }
        }
        Ok(())
    }

    /// The peer at `addr` is not interested in our pieces.
    pub fn handle_not_interested(&mut self, addr: &String) -> (r: Result<NotInterestedCmd, Error>)
        requires
            old(self).wf(),
        ensures
            final(self).wf(),
            final(self).same_rest(&*old(self)),
            final(self).pieces_status@ == old(self).pieces_status@,
            ({
                let i = key_index(keys(old(self).peers@), addr@);
                if i < 0 {
                    r == Err::<NotInterestedCmd, Error>(Error::PeerNotFound) && final(self).peers@ == old(self).peers@
                } else {
                    &&& r is Ok
                    &&& peer_updated(old(self).peers@, final(self).peers@, i, final(self).peers@[i].1)
                    &&& exists|c: Option<usize>|
                        old(self).choice_ok(addr@, c) && not_interested_spec(
                            old(self).peers@[i].1,
                            final(self).peers@[i].1,
                            c,
                            r->Ok_0,
                        )
                }
            }),
    {
        let i = match self.find_peer(addr) {
            Some(i) => i,
            None => return Err(Error::PeerNotFound),
        };
        let chosen = self.choose_piece_index(addr);
        let (a, mut p) = self.peers.remove(i);
        let cmd = p.handle_not_interested(chosen);
        put_peer(&mut self.peers, i, a, p);
        proof {
            assert(self.peers@ =~= old(self).peers@.update(i as int, (old(self).peers@[i as int].0, self.peers@[i as int].1)));
            lemma_keys_update(old(self).peers@, i as int, self.peers@[i as int].1);
            assert forall|k: int| 0 <= k < self.peers@.len() implies peer_fits(#[trigger] self.peers@[k].1, self.pieces_status@.len() as int) by {
                if k != i {
                    assert(self.peers@[k] == old(self).peers@[k]);
                }
            }
        }
        Ok(cmd)
    }

    /// The peer at `addr` has a new piece.
    pub fn handle_have(&mut self, addr: &String, piece_index: usize) -> (r: Result<HaveCmd, Error>)
        requires
            old(self).wf(),
            piece_index < old(self).pieces_status@.len(),
        ensures
            final(self).wf(),
            final(self).same_rest(&*old(self)),
            ({
                let i = key_index(keys(old(self).peers@), addr@);
                if i < 0 {
                    &&& r == Err::<HaveCmd, Error>(Error::PeerNotFound)
                    &&& final(self).peers@ == old(self).peers@
                    &&& final(self).pieces_status@ == old(self).pieces_status@
                } else {
                    &&& r is Ok
                    &&& peer_updated(old(self).peers@, final(self).peers@, i, final(self).peers@[i].1)
                    &&& have_spec(
                        old(self).peers@[i].1,
                        final(self).peers@[i].1,
                        piece_index,
                        old(self).pieces_status@,
                        final(self).pieces_status@,
                        old(self).metainfo,
                        r->Ok_0,
                    )
                }
            }),
    {
        let i = match self.find_peer(addr) {
            Some(i) => i,
            None => return Err(Error::PeerNotFound),
        };
        let (a, mut p) = self.peers.remove(i);
        let cmd = p.handle_have(piece_index, &mut self.pieces_status, &self.metainfo);
        put_peer(&mut self.peers, i, a, p);
        proof {
            assert(self.peers@ =~= old(self).peers@.update(i as int, (old(self).peers@[i as int].0, self.peers@[i as int].1)));
            lemma_keys_update(old(self).peers@, i as int, self.peers@[i as int].1);
            assert forall|k: int| 0 <= k < self.peers@.len() implies peer_fits(#[trigger] self.peers@[k].1, self.pieces_status@.len() as int) by {
                if k != i {
                    assert(self.peers@[k] == old(self).peers@[k]);
                }
            }
        }
        Ok(cmd)
    }

    /// The peer at `addr` requests a piece.
    pub fn handle_request(&self, addr: &String, piece_index: usize) -> (r: Result<RequestCmd, Error>)
        requires
            self.wf(),
        ensures
            ({
                let i = key_index(keys(self.peers@), addr@);
                if i < 0 {
                    r == Err::<RequestCmd, Error>(Error::PeerNotFound)
                } else {
                    r is Ok && request_spec(
                        self.peers@[i].1,
                        piece_index,
                        self.pieces_status@,
                        self.metainfo,
                        r->Ok_0,
                    )
                }
            }),
    {
        let i = match self.find_peer(addr) {
            Some(i) => i,
            None => return Err(Error::PeerNotFound),
        };
        Ok(self.peers[i].1.handle_request(piece_index, &self.pieces_status, &self.metainfo))
    }

    /// The handler of the peer at `addr` measured the transfer rates.
    pub fn handle_sync_stats(&mut self, addr: &String, downloaded_rate: &Option<u32>, uploaded_rate: &Option<u32>) -> (r:
        Result<(), Error>)
        requires
            old(self).wf(),
        ensures
            final(self).wf(),
            final(self).same_rest(&*old(self)),
            final(self).pieces_status@ == old(self).pieces_status@,
            ({
                let i = key_index(keys(old(self).peers@), addr@);
                if i < 0 {
                    r == Err::<(), Error>(Error::PeerNotFound) && final(self).peers@ == old(self).peers@
                } else {
                    &&& r is Ok
                    &&& peer_updated(old(self).peers@, final(self).peers@, i, final(self).peers@[i].1)
                    &&& sync_stats_spec(old(self).peers@[i].1, final(self).peers@[i].1, *downloaded_rate, *uploaded_rate)
                }
            }),
    {
        let i = match self.find_peer(addr) {
            Some(i) => i,
            None => return Err(Error::PeerNotFound),
        };
        let (a, mut p) = self.peers.remove(i);
        p.handle_sync_stats(downloaded_rate, uploaded_rate);
        put_peer(&mut self.peers, i, a, p);
        proof {
            assert(self.peers@ =~= old(self).peers@.update(i as int, (old(self).peers@[i as int].0, self.peers@[i as int].1)));
            lemma_keys_update(old(self).peers@, i as int, self.peers@[i as int].1);
            assert forall|k: int| 0 <= k < self.peers@.len() implies peer_fits(#[trigger] self.peers@[k].1, self.pieces_status@.len() as int) by {
                if k != i {
                    assert(self.peers@[k] == old(self).peers@[k]);
                }
            }
        }
        Ok(())
    }

    /// The peer at `addr` sent its bitfield: record its pieces, then tell it
    /// whether we are interested and unchoke it if there is room. A bitfield
    /// of the wrong size is an error, and then nothing changes.
    pub fn handle_bitfield(&mut self, addr: &String, bitfield: &Bitfield) -> (r: Result<BitfieldCmd, Error>)
        requires
            old(self).wf(),
        ensures
            final(self).wf(),
            final(self).same_rest(&*old(self)),
            final(self).pieces_status@ == old(self).pieces_status@,
            ({
                let i = key_index(keys(old(self).peers@), addr@);
                let n = old(self).pieces_status@.len() as int;
                let bytes = bitfield.pieces_bytes@;
                if i < 0 {
                    r == Err::<BitfieldCmd, Error>(Error::PeerNotFound) && final(self).peers@ == old(self).peers@
                } else if bytes.len() != bytes_for(n) {
                    &&& r is Err && is_invalid_length(r->Err_0, "Bitfield"@)
                    &&& final(self).peers@ == old(self).peers@
                } else {
                    &&& r is Ok
                    &&& peer_updated(old(self).peers@, final(self).peers@, i, final(self).peers@[i].1)
                    &&& ({
                        let pm = Peer { pieces: final(self).peers@[i].1.pieces, ..old(self).peers@[i].1 };
                        let mid = old(self).peers@.update(i, (old(self).peers@[i].0, pm));
                        &&& pm.pieces@ == flags_of(bytes, n as nat)
                        &&& exists|c: Option<usize>|
                            #[trigger] choice_ok_in(mid, old(self).pieces_status@, addr@, c)
                                && bitfield_spec(pm, final(self).peers@[i].1, c, optimistic_count(mid) as usize, r->Ok_0)
                    })
                }
            }),
    {
        let i = match self.find_peer(addr) {
            Some(i) => i,
            None => return Err(Error::PeerNotFound),
        };
        let n = self.pieces_status.len();
        let bytes = crate::bcodec::bdecoder::sub_vec(
            bitfield.pieces_bytes.as_slice(),
            0,
            bitfield.pieces_bytes.len(),
        );
        let bf = Bitfield { pieces_bytes: bytes, pieces_num: n };
        match bf.validate() {
            Ok(()) => {},
            Err(e) => return Err(e),
        }
        let flags = bf.to_vec();
        proof {
            assert(flags@.len() == n) by (nonlinear_arith)
                requires
                    flags@.len() == read_len(n as int, bf.pieces_bytes@.len() as int),
                    bf.pieces_bytes@.len() == bytes_for(n as int),
            ;
            assert(flags@ =~= flags_of(bitfield.pieces_bytes@, n as nat));
        }
        let (a, mut p) = self.peers.remove(i);
        p.update_pieces(&flags);
        put_peer(&mut self.peers, i, a, p);
        proof {
            assert(self.peers@ =~= old(self).peers@.update(i as int, (old(self).peers@[i as int].0, self.peers@[i as int].1)));
            lemma_keys_update(old(self).peers@, i as int, self.peers@[i as int].1);
            assert forall|k: int| 0 <= k < self.peers@.len() implies peer_fits(#[trigger] self.peers@[k].1, self.pieces_status@.len() as int) by {
                if k != i {
                    assert(self.peers@[k] == old(self).peers@[k]);
                }
            }
        }
        let ghost mid = self.peers@;
        let ghost pm = self.peers@[i as int].1;
        assert(keys(self.peers@) =~= keys(old(self).peers@));
        let chosen = self.choose_piece_index(addr);
        let unchoked_num = self.unchoked_num();
        let (a, mut p) = self.peers.remove(i);
        let cmd = p.handle_bitfield(chosen, unchoked_num);
        put_peer(&mut self.peers, i, a, p);
        proof {
            let m2 = old(self).peers@.update(i as int, (old(self).peers@[i as int].0, pm));
            assert(mid =~= m2);
            assert(pm.pieces@ == flags_of(bitfield.pieces_bytes@, n as nat));
            assert(pm.same_but_pieces(old(self).peers@[i as int].1));
            assert(choice_ok_in(m2, old(self).pieces_status@, addr@, chosen));
            assert(bitfield_spec(pm, self.peers@[i as int].1, chosen, optimistic_count(m2) as usize, cmd));
            assert(pm == Peer { pieces: self.peers@[i as int].1.pieces, ..old(self).peers@[i as int].1 });
            assert(self.peers@ =~= old(self).peers@.update(i as int, (old(self).peers@[i as int].0, self.peers@[i as int].1)));
            lemma_keys_update(old(self).peers@, i as int, self.peers@[i as int].1);
            assert(mid =~= old(self).peers@.update(i as int, (old(self).peers@[i as int].0, pm)));
            assert forall|k: int| 0 <= k < self.peers@.len() implies peer_fits(#[trigger] self.peers@[k].1, self.pieces_status@.len() as int) by {
                if k != i {
                    assert(self.peers@[k] == old(self).peers@[k]);
                }
            }
        }
        Ok(cmd)
    }

    /// The peer at `addr` finished its piece: we have it now, which is
    /// announced, and the peer is given the next piece, if any.
    pub fn handle_piece_done(&mut self, addr: &String) -> (r: Result<(BroadCmd, PieceDoneCmd), Error>)
        requires
            old(self).wf(),
            key_index(keys(old(self).peers@), addr@) >= 0 ==> old(self).peers@[key_index(
                keys(old(self).peers@),
                addr@,
            )].1.piece_index is Some,
        ensures
            final(self).wf(),
            final(self).same_rest(&*old(self)),
            ({
                let i = key_index(keys(old(self).peers@), addr@);
                if i < 0 {
                    &&& r == Err::<(BroadCmd, PieceDoneCmd), Error>(Error::PeerNotFound)
                    &&& final(self).peers@ == old(self).peers@
                    &&& final(self).pieces_status@ == old(self).pieces_status@
                } else {
                    let pi = old(self).peers@[i].1.piece_index->0;
                    let st = old(self).pieces_status@.update(pi as int, Status::Have);
                    &&& r is Ok
                    &&& r->Ok_0.0 == (BroadCmd::SendHave { index: pi })
                    &&& peer_updated(old(self).peers@, final(self).peers@, i, final(self).peers@[i].1)
                    &&& choice_ok_in(old(self).peers@, st, addr@, final(self).peers@[i].1.piece_index)
                    &&& piece_done_spec(
                        old(self).peers@[i].1,
                        final(self).peers@[i].1,
                        final(self).peers@[i].1.piece_index,
                        st,
                        final(self).pieces_status@,
                        old(self).metainfo,
                        r->Ok_0.1,
                    )
                }
            }),
    {
        let i = match self.find_peer(addr) {
            Some(i) => i,
            None => return Err(Error::PeerNotFound),
        };
        let pi = match self.peers[i].1.piece_index {
            Some(pi) => pi,
            None => return Err(Error::PieceNotRequested),
        };
        self.pieces_status.set(pi, Status::Have);
        let chosen = self.choose_piece_index(addr);
        let (a, mut p) = self.peers.remove(i);
        let cmd = p.handle_piece_done(chosen, &mut self.pieces_status, &self.metainfo);
        put_peer(&mut self.peers, i, a, p);
        proof {
            assert(self.peers@ =~= old(self).peers@.update(i as int, (old(self).peers@[i as int].0, self.peers@[i as int].1)));
            lemma_keys_update(old(self).peers@, i as int, self.peers@[i as int].1);
            assert forall|k: int| 0 <= k < self.peers@.len() implies peer_fits(#[trigger] self.peers@[k].1, self.pieces_status@.len() as int) by {
                if k != i {
                    assert(self.peers@[k] == old(self).peers@[k]);
                }
            }
        }
        Ok((BroadCmd::SendHave { index: pi }, cmd))
    }

    /// The download of the piece of the peer at `addr` was given up: the
    /// piece is missing again, unless we have it, and the peer is given the
    /// next piece, if any.
    pub fn handle_piece_cancel(&mut self, addr: &String) -> (r: Result<PieceDoneCmd, Error>)
        requires
            old(self).wf(),
            key_index(keys(old(self).peers@), addr@) >= 0 ==> old(self).peers@[key_index(
                keys(old(self).peers@),
                addr@,
            )].1.piece_index is Some,
        ensures
            final(self).wf(),
            final(self).same_rest(&*old(self)),
            ({
                let i = key_index(keys(old(self).peers@), addr@);
                if i < 0 {
                    &&& r == Err::<PieceDoneCmd, Error>(Error::PeerNotFound)
                    &&& final(self).peers@ == old(self).peers@
                    &&& final(self).pieces_status@ == old(self).pieces_status@
                } else {
                    let pi = old(self).peers@[i].1.piece_index->0;
                    let s0 = old(self).pieces_status@;
                    let st = s0.update(pi as int, if s0[pi as int] == Status::Reserved {
                        Status::Missing
                    } else {
                        s0[pi as int]
                    });
                    &&& r is Ok
                    &&& peer_updated(old(self).peers@, final(self).peers@, i, final(self).peers@[i].1)
                    &&& choice_ok_in(old(self).peers@, st, addr@, final(self).peers@[i].1.piece_index)
                    &&& piece_done_spec(
                        old(self).peers@[i].1,
                        final(self).peers@[i].1,
                        final(self).peers@[i].1.piece_index,
                        st,
                        final(self).pieces_status@,
                        old(self).metainfo,
                        r->Ok_0,
                    )
                }
            }),
    {
        let i = match self.find_peer(addr) {
            Some(i) => i,
            None => return Err(Error::PeerNotFound),
        };
        let pi = match self.peers[i].1.piece_index {
            Some(pi) => pi,
            None => return Err(Error::PieceNotRequested),
        };
        let ghost s0 = self.pieces_status@;
        if self.pieces_status[pi] == Status::Reserved {
            self.pieces_status.set(pi, Status::Missing);
        }
        assert(self.pieces_status@ =~= s0.update(pi as int, if s0[pi as int] == Status::Reserved {
            Status::Missing
        } else {
            s0[pi as int]
        }));
        let chosen = self.choose_piece_index(addr);
        let (a, mut p) = self.peers.remove(i);
        let cmd = p.handle_piece_done(chosen, &mut self.pieces_status, &self.metainfo);
        put_peer(&mut self.peers, i, a, p);
        proof {
            assert(self.peers@ =~= old(self).peers@.update(i as int, (old(self).peers@[i as int].0, self.peers@[i as int].1)));
            lemma_keys_update(old(self).peers@, i as int, self.peers@[i as int].1);
            assert forall|k: int| 0 <= k < self.peers@.len() implies peer_fits(#[trigger] self.peers@[k].1, self.pieces_status@.len() as int) by {
                if k != i {
                    assert(self.peers@[k] == old(self).peers@[k]);
                }
            }
        }
        Ok(cmd)
    }

    /// Removes the peer at `addr`; the piece it was downloading is missing
    /// again, unless we have it. Returns whether there was such a peer.
    pub fn kill_peer(&mut self, addr: &String) -> (r: bool)
        requires
            old(self).wf(),
        ensures
            final(self).wf(),
            final(self).same_rest(&*old(self)),
            ({
                let i = key_index(keys(old(self).peers@), addr@);
                if i < 0 {
                    &&& !r
                    &&& final(self).peers@ == old(self).peers@
                    &&& final(self).pieces_status@ == old(self).pieces_status@
                } else {
                    &&& r
                    &&& final(self).peers@ == old(self).peers@.remove(i)
                    &&& final(self).pieces_status@ == match old(self).peers@[i].1.piece_index {
                        Some(pi) => if old(self).pieces_status@[pi as int] != Status::Have {
                            old(self).pieces_status@.update(pi as int, Status::Missing)
                        } else {
                            old(self).pieces_status@
                        },
                        None => old(self).pieces_status@,
                    }
                }
            }),
    {
        let i = match self.find_peer(addr) {
            Some(i) => i,
            None => return false,
        };
        match self.peers[i].1.piece_index {
            Some(pi) => {
                if self.pieces_status[pi] != Status::Have {
                    self.pieces_status.set(pi, Status::Missing);
                }
            },
            None => {},
        }
        self.peers.remove(i);
        proof {
            lemma_keys_remove(old(self).peers@, i as int);
            assert forall|k: int| 0 <= k < self.peers@.len() implies peer_fits(#[trigger] self.peers@[k].1, self.pieces_status@.len() as int) by {
                if k < i {
                    assert(self.peers@[k] == old(self).peers@[k]);
                } else {
                    assert(self.peers@[k] == old(self).peers@[k + 1]);
                }
            }
        }
        true
    }

    /// The peer at `addr` is gone: forget it, then decide what comes next.
    /// With every piece here the files are put together, once; otherwise
    /// the tracker is asked again when no proposed peer is left, or the
    /// next proposed peer is tried.
    pub fn handle_kill_req(&mut self, addr: &String) -> (r: KillAction)
        requires
            old(self).wf(),
        ensures
            final(self).wf(),
            final(self).own_id == old(self).own_id,
            final(self).metainfo == old(self).metainfo,
            final(self).candidates@ == old(self).candidates@,
            final(self).round == old(self).round,
            ({
                let i = key_index(keys(old(self).peers@), addr@);
                &&& i < 0 ==> final(self).peers@ == old(self).peers@ && final(self).pieces_status@
                    == old(self).pieces_status@
                &&& i >= 0 ==> final(self).peers@ == old(self).peers@.remove(i)
            }),
            all_have(final(self).pieces_status@) ==> {
                &&& r == (if old(self).files_extracted {
                    KillAction::Idle
                } else {
                    KillAction::SpawnExtractor
                })
                &&& final(self).files_extracted
            },
            !all_have(final(self).pieces_status@) ==> {
                &&& r == (if old(self).candidates@.len() == 0 {
                    KillAction::SpawnTracker
                } else {
                    KillAction::SpawnPeer
                })
                &&& final(self).files_extracted == old(self).files_extracted
            },
    {
        self.kill_peer(addr);
        let mut have_all = true;
        let mut k: usize = 0;
        while k < self.pieces_status.len()
            invariant
                k <= self.pieces_status@.len(),
                have_all == (forall|j: int| 0 <= j < k ==> self.pieces_status@[j] == Status::Have),
            decreases self.pieces_status@.len() - k,
        {
            if self.pieces_status[k] != Status::Have {
                have_all = false;
            }
            k = k + 1;
        }
        if have_all {
            let action = if !self.files_extracted {
                KillAction::SpawnExtractor
            } else {
                KillAction::Idle
            };
            self.files_extracted = true;
            action
        } else if self.candidates.len() == 0 {
            KillAction::SpawnTracker
        } else {
            KillAction::SpawnPeer
        }
    }

    /// Adds a peer, replacing one with the same address.
    fn insert_peer(&mut self, addr: String, p: Peer)
        requires
            old(self).wf(),
            peer_fits(p, old(self).pieces_status@.len() as int),
        ensures
            final(self).wf(),
            final(self).same_rest(&*old(self)),
            final(self).pieces_status@ == old(self).pieces_status@,
            ({
                let i = key_index(keys(old(self).peers@), addr@);
                if i < 0 {
                    final(self).peers@ == old(self).peers@.push((addr, p))
                } else {
                    final(self).peers@ == old(self).peers@.update(i, (addr, p))
                }
            }),
    {
        proof {
            lemma_keys_put(self.peers@, addr, p);
        }
        match self.find_peer(&addr) {
            Some(i) => {
                self.peers.set(i, (addr, p));
            },
            None => {
                self.peers.push((addr, p));
            },
        }
        proof {
            assert forall|k: int| 0 <= k < self.peers@.len() implies peer_fits(#[trigger] self.peers@[k].1, self.pieces_status@.len() as int) by {
                if k < old(self).peers@.len() && self.peers@[k] != (addr, p) {
                    assert(self.peers@[k] == old(self).peers@[k]);
                }
            }
        }
    }

    /// Takes the next peer proposed by the tracker, to connect to it; a peer
    /// we already know is passed over. The peer is added, with unknown
    /// pieces.
    pub fn next_candidate(&mut self) -> (r: Option<(String, [u8; PEER_ID_SIZE])>)
        requires
            old(self).wf(),
        ensures
            final(self).wf(),
            final(self).pieces_status@ == old(self).pieces_status@,
            final(self).own_id == old(self).own_id,
            final(self).metainfo == old(self).metainfo,
            final(self).round == old(self).round,
            final(self).files_extracted == old(self).files_extracted,
            old(self).candidates@.len() == 0 ==> r is None && final(self).candidates@ == old(
                self,
            ).candidates@ && final(self).peers@ == old(self).peers@,
            old(self).candidates@.len() > 0 ==> {
                let c = old(self).candidates@.last();
                &&& final(self).candidates@ == old(self).candidates@.drop_last()
                &&& if key_index(keys(old(self).peers@), c.0@) >= 0 {
                    r is None && final(self).peers@ == old(self).peers@
                } else {
                    &&& r == Some(c)
                    &&& final(self).peers@.len() == old(self).peers@.len() + 1
                    &&& final(self).peers@.drop_last() == old(self).peers@
                    &&& final(self).peers@.last().0 == c.0
                    &&& final(self).peers@.last().1.id == Some(c.1)
                    &&& final(self).peers@.last().1.pieces@ == no_pieces(old(self).pieces_status@.len())
                }
            },
    {
        let (addr, peer_id) = match self.candidates.pop() {
            Some(value) => value,
            None => return None,
        };
        if self.find_peer(&addr).is_some() {
            return None;
        }
        let p = Peer::new(Some(peer_id), self.pieces_status.len());
        self.insert_peer(addr.clone(), p);
        assert(self.peers@.drop_last() =~= old(self).peers@);
        Some((addr, peer_id))
    }

    /// A peer connects to us from `addr`: it is accepted, with unknown
    /// pieces, unless too many peers we are not interested in are already
    /// connected.
    pub fn accept_incoming(&mut self, addr: String) -> (r: bool)
        requires
            old(self).wf(),
        ensures
            final(self).wf(),
            final(self).same_rest(&*old(self)),
            final(self).pieces_status@ == old(self).pieces_status@,
            r == (not_interested_count(old(self).peers@) < MAX_NOT_INTERESTED),
            !r ==> final(self).peers@ == old(self).peers@,
            r ==> ({
                let i = key_index(keys(old(self).peers@), addr@);
                let p = if i < 0 {
                    final(self).peers@.last()
                } else {
                    final(self).peers@[i]
                };
                &&& i < 0 ==> final(self).peers@.drop_last() == old(self).peers@
                &&& i >= 0 ==> final(self).peers@ == old(self).peers@.update(i, p)
                &&& p.0@ == addr@
                &&& p.1.id is None
                &&& p.1.pieces@ == no_pieces(old(self).pieces_status@.len())
                &&& p.1.piece_index is None
                &&& !p.1.am_interested
                &&& p.1.am_choked
                &&& !p.1.interested
                &&& p.1.choked
            }),
    {
        let mut n: usize = 0;
        let mut k: usize = 0;
        while k < self.peers.len()
            invariant
                k <= self.peers@.len(),
                n == not_interested_count(self.peers@.subrange(0, k as int)),
                n <= k,
            decreases self.peers@.len() - k,
        {
            assert(self.peers@.subrange(0, k + 1).drop_last() =~= self.peers@.subrange(0, k as int));
            if !self.peers[k].1.am_interested {
                n = n + 1;
            }
            k = k + 1;
        }
        assert(self.peers@.subrange(0, self.peers@.len() as int) =~= self.peers@);
        if n >= MAX_NOT_INTERESTED {
            return false;
        }
        let p = Peer::new(None, self.pieces_status.len());
        let ghost a = addr@;
        let ghost pv = p;
        self.insert_peer(addr, p);
        proof {
            let i = key_index(keys(old(self).peers@), a);
            if i < 0 {
                assert(self.peers@.drop_last() =~= old(self).peers@);
                assert(self.peers@.last().1 == pv);
            } else {
                lemma_key_index(keys(old(self).peers@), a);
                assert(self.peers@[i].1 == pv);
                assert(self.peers@[i].0@ == a);
            }
        }
        true
    }

    /// The tracker proposed peers: they are added to those to try, and the
    /// number of connections to open is returned: enough to be interested
    /// in as many peers as can be unchoked, and one more.
    pub fn add_candidates(&mut self, peers: &Vec<(String, [u8; PEER_ID_SIZE])>) -> (r: usize)
        requires
            old(self).wf(),
        ensures
            final(self).wf(),
            final(self).candidates@ == old(self).candidates@ + peers@,
            final(self).peers@ == old(self).peers@,
            final(self).pieces_status@ == old(self).pieces_status@,
            final(self).own_id == old(self).own_id,
            final(self).metainfo == old(self).metainfo,
            final(self).round == old(self).round,
            final(self).files_extracted == old(self).files_extracted,
            r == (if interested_count(old(self).peers@) >= MAX_UNCHOKED + MAX_OPTIMISTIC {
                0
            } else {
                MAX_UNCHOKED + MAX_OPTIMISTIC - interested_count(old(self).peers@)
            }),
    {
        let mut t: usize = 0;
        while t < peers.len()
            invariant
                t <= peers@.len(),
                self.candidates@ == old(self).candidates@ + peers@.subrange(0, t as int),
                self.peers@ == old(self).peers@,
                self.pieces_status@ == old(self).pieces_status@,
                self.own_id == old(self).own_id,
                self.metainfo == old(self).metainfo,
                self.round == old(self).round,
                self.files_extracted == old(self).files_extracted,
            decreases peers@.len() - t,
        {
            let c = (peers[t].0.clone(), peers[t].1);
            self.candidates.push(c);
            t = t + 1;
            assert(self.candidates@ =~= old(self).candidates@ + peers@.subrange(0, t as int));
        }
        assert(peers@.subrange(0, peers@.len() as int) =~= peers@);
        let mut n: usize = 0;
        let mut k: usize = 0;
        while k < self.peers.len()
            invariant
                k <= self.peers@.len(),
                n == interested_count(self.peers@.subrange(0, k as int)),
                n <= k,
            decreases self.peers@.len() - k,
        {
            assert(self.peers@.subrange(0, k + 1).drop_last() =~= self.peers@.subrange(0, k as int));
            if self.peers[k].1.am_interested {
                n = n + 1;
            }
            k = k + 1;
        }
        assert(self.peers@.subrange(0, self.peers@.len() as int) =~= self.peers@);
        if n >= MAX_UNCHOKED + MAX_OPTIMISTIC {
            0
        } else {
            MAX_UNCHOKED + MAX_OPTIMISTIC - n
        }
    }

    /// Picks at random one peer to unchoke optimistically, among those we
    /// choke that are interested.
    pub fn new_optimistic_peers(&self) -> (r: Vec<String>)
        ensures
            optimistic_ok(self.peers@, r@),
    {
        let mut eligible: Vec<String> = Vec::new();
        let mut k: usize = 0;
        while k < self.peers.len()
            invariant
                k <= self.peers@.len(),
                forall|t: int|
                    0 <= t < eligible@.len() ==> #[trigger] elig_known(self.peers@, self.peers@.len() as int, eligible@[t]@),
                eligible@.len() == 0 <==> !exists|q: int|
                    0 <= q < k && optimistic_candidate(#[trigger] self.peers@[q].1),
            decreases self.peers@.len() - k,
        {
            if self.peers[k].1.am_choked && self.peers[k].1.interested {
                let ghost before = eligible@;
                eligible.push(self.peers[k].0.clone());
                proof {
                    assert forall|t: int|
                        0 <= t < eligible@.len() implies #[trigger] elig_known(self.peers@, self.peers@.len() as int, eligible@[t]@) by {
                        if t < before.len() {
                            assert(eligible@[t] == before[t]);
                            assert(elig_known(self.peers@, self.peers@.len() as int, before[t]@));
                        } else {
                            assert(optimistic_candidate(self.peers@[k as int].1));
                            assert(self.peers@[k as int].0@ == eligible@[t]@);
                        }
                    }
                    assert(optimistic_candidate(self.peers@[k as int].1));
                }
            }
            k = k + 1;
        }
        let mut r: Vec<String> = Vec::new();
        match choose_addr(&eligible) {
            Some(a) => {
                r.push(a);
                proof {
                    let t = choose|t: int| 0 <= t < eligible@.len() && eligible@[t]@ == a@;
                    assert(eligible@[t]@ == a@);
                    assert(elig_known(self.peers@, self.peers@.len() as int, eligible@[t]@));
                    assert(r@[0]@ == a@);
                }
            },
            None => {},
        }
        r
    }

    /// The states of the peers as text, as in the log of each round.
    pub fn conn_state_text(&self) -> (r: String)
        ensures
            r@ == state_text(self.peers@),
    {
        let mut text = String::new();
        let mut k: usize = 0;
        while k < self.peers.len()
            invariant
                k <= self.peers@.len(),
                text@ == state_parts(self.peers@.subrange(0, k as int)),
            decreases self.peers@.len() - k,
        {
            assert(self.peers@.subrange(0, k + 1).drop_last() =~= self.peers@.subrange(0, k as int));
            text.append("|");
            let abbr = self.peers[k].1.status_abbreviation();
            text.append(abbr.as_str());
            k = k + 1;
        }
        assert(self.peers@.subrange(0, self.peers@.len() as int) =~= self.peers@);
        if self.peers.len() > 0 {
            text.append("|");
        }
        text
    }

    /// The periodic change of our choke states: the optimistic round moves
    /// on, and once every peer reported its rates, peers are ranked by the
    /// rate at which they give us data (or take it, once we have every
    /// piece) and choked or unchoked; every few rounds one peer is unchoked
    /// optimistically. Returns the changes to announce, none where some
    /// peer did not report yet.
    pub fn timeout_change_conn_state(&mut self) -> (r: Result<Option<BroadCmd>, Error>)
        requires
            old(self).wf(),
        ensures
            final(self).wf(),
            final(self).round == (old(self).round + 1) % (MAX_OPTIMISTIC_ROUNDS as int),
            final(self).pieces_status@ == old(self).pieces_status@,
            final(self).own_id == old(self).own_id,
            final(self).metainfo == old(self).metainfo,
            final(self).candidates@ == old(self).candidates@,
            final(self).files_extracted == old(self).files_extracted,
            same_but_flags(final(self).peers@, old(self).peers@),
            !all_reported(old(self).peers@) ==> r == Ok::<Option<BroadCmd>, Error>(None)
                && final(self).peers@ == old(self).peers@,
            all_reported(old(self).peers@) ==> exists|rates: Seq<(String, u32)>, opt: Seq<String>|
                #![trigger conn_state(old(self).peers@, rates, opt)]
                {
                    let (flags, map) = conn_state(old(self).peers@, rates, opt);
                    &&& rates.to_multiset() == rates_of(
                        old(self).peers@,
                        all_have(old(self).pieces_status@),
                    ).to_multiset()
                    &&& sorted_desc(rates)
                    &&& if final(self).round == 0 {
                        optimistic_ok(old(self).peers@, opt)
                    } else {
                        opt.len() == 0
                    }
                    &&& r matches Ok(Some(BroadCmd::SendOwnState { am_choked_map })) && map_view(
                        am_choked_map@,
                    ) == map
                    &&& peer_flags(final(self).peers@) == flags
                    &&& announced_ok(keys(old(self).peers@), flags, map)
                },
            all_reported(old(self).peers@) ==> unchoked_count(final(self).peers@) <= MAX_UNCHOKED
                + MAX_OPTIMISTIC,
            all_reported(old(self).peers@) ==> forall|k: int|
                0 <= k < final(self).peers@.len() && !(#[trigger] final(self).peers@[k]).1.am_choked
                    ==> final(self).peers@[k].1.interested,
    {
        self.round = (self.round + 1) % MAX_OPTIMISTIC_ROUNDS;
        let mut k: usize = 0;
        while k < self.peers.len()
            invariant
                k <= self.peers@.len(),
                self.wf(),
                self.round == (old(self).round + 1) % (MAX_OPTIMISTIC_ROUNDS as int),
                self.peers@ == old(self).peers@,
                self.pieces_status@ == old(self).pieces_status@,
                self.own_id == old(self).own_id,
                self.metainfo == old(self).metainfo,
                self.candidates@ == old(self).candidates@,
                self.files_extracted == old(self).files_extracted,
                forall|q: int|
                    0 <= q < k ==> (#[trigger] self.peers@[q]).1.download_rate is Some
                        && self.peers@[q].1.uploaded_rate is Some,
            decreases self.peers@.len() - k,
        {
            if self.peers[k].1.download_rate.is_none() || self.peers[k].1.uploaded_rate.is_none() {
                return Ok(None);
            }
            k = k + 1;
        }
        let new_optimistic = if self.round == 0 {
            self.new_optimistic_peers()
        } else {
            Vec::new()
        };
        let mut is_seeder = true;
        let mut k: usize = 0;
        while k < self.pieces_status.len()
            invariant
                k <= self.pieces_status@.len(),
                is_seeder == (forall|j: int| 0 <= j < k ==> self.pieces_status@[j] == Status::Have),
            decreases self.pieces_status@.len() - k,
        {
            if self.pieces_status[k] != Status::Have {
                is_seeder = false;
            }
            k = k + 1;
        }
        let mut rates: Vec<(String, u32)> = Vec::new();
        let mut k: usize = 0;
        while k < self.peers.len()
            invariant
                k <= self.peers@.len(),
                all_reported(self.peers@),
                rates@ == rates_of(self.peers@, is_seeder).subrange(0, k as int),
            decreases self.peers@.len() - k,
        {
            let rate = if is_seeder {
                match self.peers[k].1.download_rate {
                    Some(v) => v,
                    None => 0,
                }
            } else {
                match self.peers[k].1.uploaded_rate {
                    Some(v) => v,
                    None => 0,
                }
            };
            rates.push((self.peers[k].0.clone(), rate));
            k = k + 1;
            assert(rates@ =~= rates_of(self.peers@, is_seeder).subrange(0, k as int));
        }
        let ghost built = rates@;
        assert(built =~= rates_of(self.peers@, is_seeder));
        let ghost ks = keys(self.peers@);
        proof {
            assert forall|x: (String, u32)| built.contains(x) implies key_index(ks, x.0@) >= 0 by {
                let t = choose|t: int| 0 <= t < built.len() && built[t] == x;
                assert(ks[t] == x.0@);
                lemma_key_index(ks, x.0@);
            }
        }
        let ghost opt = new_optimistic@;
        let ghost peers0 = self.peers@;
        let result = self.change_conn_state(&mut rates, &new_optimistic);
        proof {
            assert forall|t: int| 0 <= t < rate_addrs(rates@).len() implies key_index(ks, #[trigger] rate_addrs(rates@)[t]) >= 0 by {
                assert(rates@.contains(rates@[t]));
                assert(rates@.to_multiset().count(rates@[t]) > 0);
                assert(built.contains(rates@[t]));
            }
            if opt.len() > 0 {
                assert forall|t: int| 0 <= t < addr_views(opt).len() implies key_index(ks, #[trigger] addr_views(opt)[t]) >= 0 by {
                    assert(t == 0);
                    let q = choose|q: int|
                        0 <= q < peers0.len() && optimistic_candidate(#[trigger] peers0[q].1) && peers0[q].0@ == opt[0]@;
                    assert(ks[q] == opt[0]@);
                    lemma_key_index(ks, opt[0]@);
                }
            }
            assert(conn_state(peers0, rates@, opt) == conn_state(old(self).peers@, rates@, opt));
            lemma_keys_same_but_flags(self.peers@, peers0);
            lemma_ranking_of_all(peers0, rates@, is_seeder);
            lemma_conn_state_bound(peers0, rates@, opt);
            assert(unchoked_of(peer_flags(self.peers@)) == unchoked_of(conn_state(peers0, rates@, opt).0));
            lemma_conn_state_interested(peers0, rates@, opt);
            assert forall|k: int|
                0 <= k < self.peers@.len() && !(#[trigger] self.peers@[k]).1.am_choked implies self.peers@[k].1.interested by {
                assert(peer_flags(self.peers@)[k] == conn_state(peers0, rates@, opt).0[k]);
                assert(self.peers@[k].1.interested == peers0[k].1.interested);
                if !peers0[k].1.interested {
                    assert(addr_views(opt).contains(ks[k]));
                    let t = choose|t: int| 0 <= t < addr_views(opt).len() && addr_views(opt)[t] == ks[k];
                    assert(t == 0);
                    let q = choose|q: int|
                        0 <= q < peers0.len() && optimistic_candidate(#[trigger] peers0[q].1) && peers0[q].0@ == opt[0]@;
                    assert(ks[q] == ks[k]);
                }
            }
        }
        match result {
            Ok(cmd) => Ok(Some(cmd)),
            Err(e) => Err(e),
        }
    }

    /// For each piece, the number of peers that have it.
    fn piece_counts(&self) -> (r: Vec<usize>)
        requires
            self.wf(),
        ensures
            r@.len() == self.pieces_status@.len(),
            forall|j: int| 0 <= j < r@.len() ==> r@[j] == have_count(self.peers@, j),
    {
        let n = self.pieces_status.len();
        let mut counts: Vec<usize> = Vec::new();
        let mut i: usize = 0;
        while i < n
            invariant
                self.wf(),
                n == self.pieces_status@.len(),
                i <= n,
                counts@.len() == i,
                forall|j: int| 0 <= j < i ==> counts@[j] == have_count(self.peers@, j),
            decreases n - i,
        {
            let mut c: usize = 0;
            let mut k: usize = 0;
            while k < self.peers.len()
                invariant
                    self.wf(),
                    n == self.pieces_status@.len(),
                    i < n,
                    k <= self.peers@.len(),
                    c == have_count(self.peers@.subrange(0, k as int), i as int),
                    c <= k,
                decreases self.peers@.len() - k,
            {
                assert(self.peers@.subrange(0, k + 1).drop_last() =~= self.peers@.subrange(0, k as int));
                assert(self.peers@[k as int].1.pieces@.len() == n);
                if self.peers[k].1.pieces[i] {
                    c = c + 1;
                }
                k = k + 1;
            }
            assert(self.peers@.subrange(0, self.peers@.len() as int) =~= self.peers@);
            counts.push(c);
            i = i + 1;
        }
        counts
    }

    /// The number of pieces that we do not have.
    fn missing_num(&self) -> (r: usize)
        ensures
            r == missing_count(self.pieces_status@),
    {
        let mut c: usize = 0;
        let mut i: usize = 0;
        while i < self.pieces_status.len()
            invariant
                i <= self.pieces_status@.len(),
                c == missing_count(self.pieces_status@.subrange(0, i as int)),
                c <= i,
            decreases self.pieces_status@.len() - i,
        {
            assert(self.pieces_status@.subrange(0, i + 1).drop_last() =~= self.pieces_status@.subrange(
                0,
                i as int,
            ));
            if self.pieces_status[i] != Status::Have {
                c = c + 1;
            }
            i = i + 1;
        }
        assert(self.pieces_status@.subrange(0, self.pieces_status@.len() as int) =~= self.pieces_status@);
        c
    }
}

/// The number of peers that we unchoked optimistically.
pub open spec fn optimistic_count(peers: Seq<(String, Peer)>) -> int
    decreases peers.len(),
{
    if peers.len() == 0 {
        0
    } else {
        optimistic_count(peers.drop_last()) + (if !peers.last().1.am_choked
            && peers.last().1.optimistic_unchoke {
            1int
        } else {
            0int
        })
    }
}

} // verus!
