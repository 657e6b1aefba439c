use vstd::prelude::*;
use vstd::utf8::encode_utf8;

verus! {

/// Below this many members the gang only grows its respect.
pub const GROWTH_THRESHOLD: usize = 12;

/// Clash win chances are given in billionths: `PROBABILITY_ONE` is certainty.
pub const PROBABILITY_ONE: u64 = 1_000_000_000;

/// Territory warfare is switched on only above this win chance (0.65).
pub const ENGAGE_THRESHOLD: u64 = 650_000_000;

/// What this tick's work is aimed at.
#[derive(Clone, Copy, Debug, PartialEq, Eq, Structural)]
pub enum GangMode {
    /// Still small: earn respect.
    Respect,
    /// A rival has power: fight over territory, clashing with `rival`
    /// (an index into the rival list the mode was chosen from).
    Territory { rival: usize },
    /// No rival has power left: earn money.
    Money,
}

/// Another gang, with its power in fixed point (the unit is set by the caller).
#[derive(Debug)]
pub struct Rival {
    pub name: String,
    pub power: u64,
}

/// The UTF-8 bytes of a name, the order in which ties are broken.
pub open spec fn name_bytes(s: String) -> Seq<u8> {
    encode_utf8(s@)
}

/// `a` comes strictly before `b` in lexicographic byte order.
pub open spec fn bytes_before(a: Seq<u8>, b: Seq<u8>) -> bool {
    exists|k: int|
        0 <= k <= a.len() && k <= b.len() && a.subrange(0, k) == b.subrange(0, k) && (
        (k == a.len() && k < b.len()) || (k < a.len() && k < b.len() && a[k] < b[k]))
}

/// A rival that counts against us: not ourselves, and with some power.
pub open spec fn contender(us: Seq<char>, r: Rival) -> bool {
    r.name@ != us && r.power > 0
}

/// The rival at `i` ranks above the one at `j`: more power; on equal power the
/// name that comes first in byte order; on equal names the earlier entry.
pub open spec fn outranks(rivals: Seq<Rival>, i: int, j: int) -> bool {
    rivals[i].power > rivals[j].power || (rivals[i].power == rivals[j].power && (
    bytes_before(name_bytes(rivals[i].name), name_bytes(rivals[j].name)) || (
    name_bytes(rivals[i].name) == name_bytes(rivals[j].name) && i < j)))
}

/// `i` is the strongest contender of `rivals`.
pub open spec fn is_top_rival(us: Seq<char>, rivals: Seq<Rival>, i: int) -> bool {
    &&& 0 <= i < rivals.len()
    &&& contender(us, rivals[i])
    &&& forall|j: int| 0 <= j < rivals.len() && j != i && contender(us, rivals[j])
            ==> outranks(rivals, i, j)
}

/// The mode for a gang of `members`, named `us`, among `rivals`.
pub open spec fn mode_of(members: nat, us: Seq<char>, rivals: Seq<Rival>, m: GangMode) -> bool {
    if members < GROWTH_THRESHOLD {
        m == GangMode::Respect
    } else if forall|j: int| 0 <= j < rivals.len() ==> !contender(us, #[trigger] rivals[j]) {
        m == GangMode::Money
    } else {
        m matches GangMode::Territory { rival } && is_top_rival(us, rivals, rival as int)
    }
}

/// Lexicographic comparison of two byte strings.
pub fn bytes_less(a: &[u8], b: &[u8]) -> (r: bool)
    ensures
        r == bytes_before(a@, b@),
{
    let mut i: usize = 0;
    while i < a.len() && i < b.len() && a[i] == b[i]
        invariant
            i <= a.len(),
            i <= b.len(),
            a@.subrange(0, i as int) == b@.subrange(0, i as int),
        decreases a.len() - i,
    {
        proof {
            assert(a@.subrange(0, i + 1) == a@.subrange(0, i as int).push(a@[i as int]));
            assert(b@.subrange(0, i + 1) == b@.subrange(0, i as int).push(b@[i as int]));
        }
        i = i + 1;
    }
    let r = if i < a.len() && i < b.len() {
        a[i] < b[i]
    } else {
        i == a.len() && i < b.len()
    };
    proof {
        if r {
            assert(bytes_before(a@, b@)) by {
                let k = i as int;
                assert(a@.subrange(0, k) == b@.subrange(0, k));
            }
        } else {
            assert forall|k: int|
                0 <= k <= a.len() && k <= b.len() && a@.subrange(0, k) == b@.subrange(0, k)
                implies !((k == a.len() && k < b.len()) || (k < a.len() && k < b.len() && a@[k] < b@[k]))
            by {
                if k > i {
                    assert(a@.subrange(0, k)[i as int] == b@.subrange(0, k)[i as int]);
                }
                if k < i {
                    assert(a@.subrange(0, i as int)[k] == b@.subrange(0, i as int)[k]);
                }
            }
        }
    }
    r
}

/// Whether the rival at `i` ranks above the one at `j` (see `outranks`).
fn outranks_at(rivals: &Vec<Rival>, i: usize, j: usize) -> (r: bool)
    requires
        i < rivals.len(),
        j < rivals.len(),
    ensures
        r == outranks(rivals@, i as int, j as int),
{
    let a = &rivals[i];
    let b = &rivals[j];
    if a.power != b.power {
        return a.power > b.power;
    }
    let ab = a.name.as_str().as_bytes();
    let bb = b.name.as_str().as_bytes();
    if bytes_less(ab, bb) {
        return true;
    }
    if bytes_less(bb, ab) {
        proof {
            assert(ab@ != bb@) by {
                if ab@ == bb@ {
                    let k = choose|k: int|
                        0 <= k <= bb@.len() && k <= ab@.len() && bb@.subrange(0, k) == ab@.subrange(0, k) && (
                        (k == bb@.len() && k < ab@.len()) || (k < bb@.len() && k < ab@.len() && bb@[k] < ab@[k]));
                }
            }
        }
        return false;
    }
    proof {
        // Neither comes first, so the two byte strings are equal.
        if ab@ != bb@ {
            if ab@.len() <= bb@.len() {
                lemma_differ_then_before(ab@, bb@);
            } else {
                lemma_differ_then_before(bb@, ab@);
            }
        }
    }
    i < j
}

/// Of two different byte strings, the one no longer than the other is before it
/// or after it.
proof fn lemma_differ_then_before(a: Seq<u8>, b: Seq<u8>)
    requires
        a != b,
        a.len() <= b.len(),
    ensures
        bytes_before(a, b) || bytes_before(b, a),
{
    if a == b.subrange(0, a.len() as int) {
        assert(a.len() < b.len()) by {
            if a.len() == b.len() {
                assert(a =~= b);
            }
        }
        let k = a.len() as int;
        assert(a.subrange(0, k) =~= a);
        assert(a.subrange(0, k) == b.subrange(0, k));
    } else {
        assert(!(a =~= b.subrange(0, a.len() as int)));
        let d = choose|d: int| 0 <= d < a.len() && a[d] != b.subrange(0, a.len() as int)[d];
        lemma_first_difference(a, b, d);
    }
}

/// Where two byte strings differ at `d`, the first difference decides the order.
proof fn lemma_first_difference(a: Seq<u8>, b: Seq<u8>, d: int)
    requires
        0 <= d < a.len(),
        d < b.len(),
        a[d] != b[d],
    ensures
        bytes_before(a, b) || bytes_before(b, a),
    decreases d,
{
    if exists|e: int| 0 <= e < d && a[e] != b[e] {
        let e = choose|e: int| 0 <= e < d && a[e] != b[e];
        lemma_first_difference(a, b, e);
    } else {
        assert(a.subrange(0, d) =~= b.subrange(0, d));
    }
}

/// The strongest rival that is not us and has positive power, if any.
pub fn top_rival(us: &String, rivals: &Vec<Rival>) -> (r: Option<usize>)
    ensures
        r is None <==> forall|j: int| 0 <= j < rivals.len() ==> !contender(us@, #[trigger] rivals@[j]),
        r matches Some(i) ==> is_top_rival(us@, rivals@, i as int),
{
    let mut best: Option<usize> = None;
    let mut k: usize = 0;
    while k < rivals.len()
        invariant
            k <= rivals.len(),
            best is None <==> forall|j: int| 0 <= j < k ==> !contender(us@, #[trigger] rivals@[j]),
            best matches Some(b) ==> b < k && contender(us@, rivals@[b as int]) && forall|j: int|
                0 <= j < k && j != b && contender(us@, rivals@[j]) ==> outranks(rivals@, b as int, j),
        decreases rivals.len() - k,
    {
        let r = &rivals[k];
        if r.name != *us && r.power > 0 {
            match best {
                None => {
                    best = Some(k);
                },
                Some(b) => {
                    if outranks_at(rivals, k, b) {
                        proof { lemma_outranks_transitive_all(us@, rivals@, b as int, k as int); }
                        best = Some(k);
                    } else {
                        proof { lemma_outranks_total(rivals@, b as int, k as int); }
                    }
                },
            }
        }
        k = k + 1;
    }
    best
}

/// `outranks` is a strict order: a new leader `k` over the old leader `b`
/// outranks everything `b` outranked.
proof fn lemma_outranks_transitive_all(us: Seq<char>, rivals: Seq<Rival>, b: int, k: int)
    requires
        0 <= b < k < rivals.len(),
        outranks(rivals, k, b),
    ensures
        forall|j: int| 0 <= j < rivals.len() && j != k && outranks(rivals, b, j)
            ==> outranks(rivals, k, j),
        !outranks(rivals, b, k),
{
    assert forall|j: int| 0 <= j < rivals.len() && j != k && outranks(rivals, b, j)
        implies outranks(rivals, k, j) by {
        let nk = name_bytes(rivals[k].name);
        let nb = name_bytes(rivals[b].name);
        let nj = name_bytes(rivals[j].name);
        if rivals[k].power == rivals[j].power {
            if bytes_before(nk, nb) && bytes_before(nb, nj) {
                lemma_bytes_before_transitive(nk, nb, nj);
            }
        }
    }
    let nk = name_bytes(rivals[k].name);
    let nb = name_bytes(rivals[b].name);
    if rivals[k].power == rivals[b].power && bytes_before(nk, nb) && bytes_before(nb, nk) {
        lemma_bytes_before_transitive(nk, nb, nk);
        lemma_bytes_before_irreflexive(nk);
    }
}

/// When `k` does not outrank `b`, `b` outranks `k`.
proof fn lemma_outranks_total(rivals: Seq<Rival>, b: int, k: int)
    requires
        0 <= b < k < rivals.len(),
        !outranks(rivals, k, b),
    ensures
        outranks(rivals, b, k),
{
    let nk = name_bytes(rivals[k].name);
    let nb = name_bytes(rivals[b].name);
    if nk != nb {
        if nb.len() <= nk.len() {
            lemma_differ_then_before(nb, nk);
        } else {
            lemma_differ_then_before(nk, nb);
        }
    }
}

proof fn lemma_bytes_before_irreflexive(a: Seq<u8>)
    ensures
        !bytes_before(a, a),
{
}

proof fn lemma_bytes_before_transitive(a: Seq<u8>, b: Seq<u8>, c: Seq<u8>)
    requires
        bytes_before(a, b),
        bytes_before(b, c),
    ensures
        bytes_before(a, c),
{
    let k1 = choose|k: int|
        0 <= k <= a.len() && k <= b.len() && a.subrange(0, k) == b.subrange(0, k) && (
        (k == a.len() && k < b.len()) || (k < a.len() && k < b.len() && a[k] < b[k]));
    let k2 = choose|k: int|
        0 <= k <= b.len() && k <= c.len() && b.subrange(0, k) == c.subrange(0, k) && (
        (k == b.len() && k < c.len()) || (k < b.len() && k < c.len() && b[k] < c[k]));
    let k = if k1 <= k2 { k1 } else { k2 };
    assert(a.subrange(0, k) =~= c.subrange(0, k)) by {
        assert forall|e: int| 0 <= e < k implies a.subrange(0, k)[e] == c.subrange(0, k)[e] by {
            assert(a.subrange(0, k1)[e] == b.subrange(0, k1)[e]);
            assert(b.subrange(0, k2)[e] == c.subrange(0, k2)[e]);
        }
    }
    if k1 < k2 {
        assert(b.subrange(0, k2)[k1] == c.subrange(0, k2)[k1]);
    } else if k2 < k1 {
        assert(a.subrange(0, k1)[k2] == b.subrange(0, k1)[k2]);
    }
}

/// Chooses the mode for a gang of `members` members named `us`.
pub fn select_mode(members: usize, us: &String, rivals: &Vec<Rival>) -> (m: GangMode)
    ensures
        mode_of(members as nat, us@, rivals@, m),
{
    if members < GROWTH_THRESHOLD {
        return GangMode::Respect;
    }
    match top_rival(us, rivals) {
        None => GangMode::Money,
        Some(rival) => GangMode::Territory { rival },
    }
}

/// Whether to engage in territory warfare at a clash win chance of `win_chance`
/// billionths: only when it is strictly above 0.65.
pub fn engage_territory(win_chance: u64) -> (r: bool)
    ensures
        r == (win_chance > ENGAGE_THRESHOLD),
{
    win_chance > ENGAGE_THRESHOLD
}

/// A small gang always grows its respect, whatever its rivals' power.
pub proof fn lemma_small_gang_grows(members: nat, us: Seq<char>, rivals: Seq<Rival>, m: GangMode)
    requires
        members < GROWTH_THRESHOLD,
        mode_of(members, us, rivals, m),
    ensures
        m == GangMode::Respect,
{
}

/// A large enough gang whose rivals all have zero power earns money, and
/// never goes to war.
pub proof fn lemma_powerless_rivals_mean_money(members: nat, us: Seq<char>, rivals: Seq<Rival>, m: GangMode)
    requires
        members >= GROWTH_THRESHOLD,
        forall|j: int| 0 <= j < rivals.len() ==> #[trigger] rivals[j].power == 0,
        mode_of(members, us, rivals, m),
    ensures
        m == GangMode::Money,
{
    assert forall|j: int| 0 <= j < rivals.len() implies !contender(us, #[trigger] rivals[j]) by {
        assert(rivals[j].power == 0);
    }
}

} // verus!
