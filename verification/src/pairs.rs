//! Pair formation, pair prioritization, and checklist pruning and ordering,
//! RFC 8445 sections 6.1.2.2 to 6.1.2.4.

use vstd::prelude::*;

use crate::agent::Role;
use crate::candidate::Candidate;
use crate::candidate::spec_candidate_priority;

verus! {

/// Check progress of one candidate pair, RFC 8445 section 6.1.2.6.
#[derive(Clone, Copy, Debug, PartialEq, Eq, Structural)]
pub enum PairState {
    Waiting,
    InProgress,
    Succeeded,
    Failed,
    Frozen,
}

/// An ordered combination of one local and one remote candidate, formed only
/// for candidates sharing the same component, plus its check progress.
#[derive(Clone, Copy, Debug, PartialEq, Eq, Structural)]
pub struct CandidatePair {
    pub local: Candidate,
    pub remote: Candidate,
    pub state: PairState,
}

/// Overall state of a checklist.
#[derive(Clone, Copy, Debug, PartialEq, Eq, Structural)]
pub enum ChecklistState {
    Running,
    Completed,
    Failed,
}

/// The ordered sequence of candidate pairs to be probed for connectivity,
/// plus an overall state. The pruning step replaces the pair sequence; it
/// never mutates pairs in place. The RFC 8445 section 6.1.2.5 cap of 100
/// pairs per checklist is not enforced here and is the caller's to apply.
#[derive(Debug, PartialEq)]
pub struct Checklist {
    pub pairs: Vec<CandidatePair>,
    pub state: ChecklistState,
}

/// The pair a formation step emits for one matching combination: the two
/// candidates, frozen.
pub open spec fn make_pair(l: Candidate, r: Candidate) -> CandidatePair {
    CandidatePair { local: l, remote: r, state: PairState::Frozen }
}

/// The pairs one local candidate forms against a remote sequence, in the
/// remotes' order: one frozen pair per remote sharing its component.
pub open spec fn pairs_with(l: Candidate, remotes: Seq<Candidate>) -> Seq<CandidatePair>
    decreases remotes.len(),
{
    if remotes.len() == 0 {
        Seq::empty()
    } else {
        let rest = pairs_with(l, remotes.drop_last());
        if l.component == remotes.last().component {
            rest.push(make_pair(l, remotes.last()))
        } else {
            rest
        }
    }
}

/// The full cross join of locals against remotes, restricted to matching
/// components: the blocks of `pairs_with`, one per local, in the locals'
/// order.
pub open spec fn formed_pairs(locals: Seq<Candidate>, remotes: Seq<Candidate>) -> Seq<
    CandidatePair,
>
    decreases locals.len(),
{
    if locals.len() == 0 {
        Seq::empty()
    } else {
        formed_pairs(locals.drop_last(), remotes) + pairs_with(locals.last(), remotes)
    }
}

/// Forms the full candidate-pair set, RFC 8445 section 6.1.2.2: one frozen
/// pair for every (local, remote) combination sharing a component value,
/// mismatched components silently excluded. No deduplication or ordering
/// happens here; both are deferred to pruning.
pub fn pair_candidates(local: Vec<Candidate>, remote: Vec<Candidate>) -> (r: Checklist)
    ensures
        r.pairs@ == formed_pairs(local@, remote@),
        r.state == ChecklistState::Running,
{
    let mut pairs: Vec<CandidatePair> = Vec::new();
    let mut i: usize = 0;
    while i < local.len()
        invariant
            i <= local.len(),
            pairs@ == formed_pairs(local@.take(i as int), remote@),
        decreases local.len() - i,
    {
        let mut j: usize = 0;
        while j < remote.len()
            invariant
                i < local.len(),
                j <= remote.len(),
                pairs@ == formed_pairs(local@.take(i as int), remote@) + pairs_with(
                    local@[i as int],
                    remote@.take(j as int),
                ),
            decreases remote.len() - j,
        {
            if local[i].component == remote[j].component {
                pairs.push(CandidatePair { local: local[i], remote: remote[j], state: PairState::Frozen });
            }
            j = j + 1;
            proof {
                assert(remote@.take(j as int).drop_last() =~= remote@.take(j - 1));
                assert(remote@.take(j as int).last() == remote@[j - 1]);
            }
        }
        i = i + 1;
        proof {
            assert(remote@.take(remote@.len() as int) =~= remote@);
            assert(local@.take(i as int).drop_last() =~= local@.take(i - 1));
            assert(local@.take(i as int).last() == local@[i - 1]);
        }
    }
    proof {
        assert(local@.take(local@.len() as int) =~= local@);
    }
    Checklist { pairs, state: ChecklistState::Running }
}

/// The RFC 8445 section 6.1.2.3 pair priority formula. G is the priority of
/// the candidate offered by the controlling agent and D that of the candidate
/// offered by the controlled agent; the role says which of local and remote
/// plays which part for the agent evaluating this pair.
pub open spec fn spec_pair_priority(p: CandidatePair, role: Role) -> int {
    let g = match role {
        Role::Controlling => spec_candidate_priority(p.local),
        Role::Controlled => spec_candidate_priority(p.remote),
    };
    let d = match role {
        Role::Controlling => spec_candidate_priority(p.remote),
        Role::Controlled => spec_candidate_priority(p.local),
    };
    let lo = if g <= d { g } else { d };
    let hi = if g <= d { d } else { g };
    0x1_0000_0000 * lo + 2 * hi + (if g > d { 1int } else { 0int })
}

impl CandidatePair {
    /// Both candidates of the pair carry a component in range, so their
    /// priorities are defined.
    pub open spec fn wf(self) -> bool {
        self.local.wf() && self.remote.wf()
    }

    /// The 64-bit pair priority: the minimum of the two candidate priorities
    /// dominates the high bits, the maximum breaks ties within equal
    /// minimums, and the final bit breaks the tie between the symmetric
    /// (G, D) and (D, G) assignments.
    pub fn priority(&self, role: Role) -> (r: u64)
        requires
            self.wf(),
        ensures
            r as int == spec_pair_priority(*self, role),
    {
        let lp = self.local.priority() as u64;
        let rp = self.remote.priority() as u64;
        let (g, d) = match role {
            Role::Controlling => (lp, rp),
            Role::Controlled => (rp, lp),
        };
        let lo = if g <= d { g } else { d };
        let hi = if g <= d { d } else { g };
        let base = 0x1_0000_0000u64 * lo + 2 * hi;
        if g > d {
            base + 1
        } else {
            base
        }
    }
}

/// Role sensitivity of the pair priority: when the two candidate priorities
/// of a pair differ, the pair priority under Controlling and under Controlled
/// differ, and the tie-break bit raises exactly the evaluation whose G side
/// (the candidate offered by the controlling agent) is the larger.
pub proof fn lemma_role_sensitivity(p: CandidatePair)
    requires
        spec_candidate_priority(p.local) != spec_candidate_priority(p.remote),
    ensures
        spec_pair_priority(p, Role::Controlling) != spec_pair_priority(p, Role::Controlled),
        spec_candidate_priority(p.local) > spec_candidate_priority(p.remote)
            ==> spec_pair_priority(p, Role::Controlling) == spec_pair_priority(
            p,
            Role::Controlled,
        ) + 1,
        spec_candidate_priority(p.remote) > spec_candidate_priority(p.local)
            ==> spec_pair_priority(p, Role::Controlled) == spec_pair_priority(
            p,
            Role::Controlling,
        ) + 1,
{
}

/// The number of candidates of a sequence that carry one component value.
pub open spec fn count_with_component(s: Seq<Candidate>, comp: u32) -> int
    decreases s.len(),
{
    if s.len() == 0 {
        0
    } else {
        count_with_component(s.drop_last(), comp) + (if s.last().component == comp {
            1int
        } else {
            0int
        })
    }
}

/// One local candidate pairs with exactly the remotes that share its
/// component.
proof fn lemma_pairs_with_len(l: Candidate, remotes: Seq<Candidate>)
    ensures
        pairs_with(l, remotes).len() == count_with_component(remotes, l.component),
    decreases remotes.len(),
{
    if remotes.len() > 0 {
        lemma_pairs_with_len(l, remotes.drop_last());
    }
}

/// When every candidate carries one component value, the count is the whole
/// length.
proof fn lemma_count_all(s: Seq<Candidate>, comp: u32)
    requires
        forall|k: int| 0 <= k < s.len() ==> (#[trigger] s[k]).component == comp,
    ensures
        count_with_component(s, comp) == s.len(),
    decreases s.len(),
{
    if s.len() > 0 {
        assert(forall|k: int|
            0 <= k < s.drop_last().len() ==> s.drop_last()[k] == s[k]);
        lemma_count_all(s.drop_last(), comp);
    }
}

/// Pairing cardinality, single component: N locals against M remotes all
/// sharing one component value form exactly N times M pairs.
pub proof fn lemma_pairing_cardinality(locals: Seq<Candidate>, remotes: Seq<Candidate>, comp: u32)
    requires
        forall|k: int| 0 <= k < locals.len() ==> (#[trigger] locals[k]).component == comp,
        forall|k: int| 0 <= k < remotes.len() ==> (#[trigger] remotes[k]).component == comp,
    ensures
        formed_pairs(locals, remotes).len() == locals.len() * remotes.len(),
    decreases locals.len(),
{
    if locals.len() == 0 {
        assert(locals.len() * remotes.len() == 0) by (nonlinear_arith)
            requires locals.len() == 0;
    } else {
        assert(forall|k: int|
            0 <= k < locals.drop_last().len() ==> locals.drop_last()[k] == locals[k]);
        lemma_pairing_cardinality(locals.drop_last(), remotes, comp);
        lemma_pairs_with_len(locals.last(), remotes);
        lemma_count_all(remotes, comp);
        assert((locals.len() - 1) * remotes.len() + remotes.len() == locals.len() * remotes.len())
            by (nonlinear_arith);
    }
}

/// Pairing cardinality, two components: for candidates split across two
/// component values, cross-component combinations are excluded, so the pair
/// count is n1 times m1 plus n2 times m2, counting each side's members per
/// component.
pub proof fn lemma_pairing_cardinality_split(
    locals: Seq<Candidate>,
    remotes: Seq<Candidate>,
    c1: u32,
    c2: u32,
)
    requires
        c1 != c2,
        forall|k: int|
            0 <= k < locals.len() ==> ((#[trigger] locals[k]).component == c1 || locals[k].component
                == c2),
        forall|k: int|
            0 <= k < remotes.len() ==> ((#[trigger] remotes[k]).component == c1
                || remotes[k].component == c2),
    ensures
        formed_pairs(locals, remotes).len() == count_with_component(locals, c1)
            * count_with_component(remotes, c1) + count_with_component(locals, c2)
            * count_with_component(remotes, c2),
    decreases locals.len(),
{
    if locals.len() > 0 {
        assert(forall|k: int|
            0 <= k < locals.drop_last().len() ==> locals.drop_last()[k] == locals[k]);
        lemma_pairing_cardinality_split(locals.drop_last(), remotes, c1, c2);
        lemma_pairs_with_len(locals.last(), remotes);
        let n1 = count_with_component(locals.drop_last(), c1);
        let n2 = count_with_component(locals.drop_last(), c2);
        let m1 = count_with_component(remotes, c1);
        let m2 = count_with_component(remotes, c2);
        if locals.last().component == c1 {
            assert((n1 + 1) * m1 == n1 * m1 + m1) by (nonlinear_arith);
        } else {
            assert((n2 + 1) * m2 == n2 * m2 + m2) by (nonlinear_arith);
        }
    }
}

/// The pruning key, RFC 8445 section 6.1.2.4: two pairs would probe the same
/// network path exactly when they share the local base address and the
/// identical remote candidate. The key deliberately ignores every other
/// field of the local candidate.
pub open spec fn same_key(a: CandidatePair, b: CandidatePair) -> bool {
    a.local.base_addr == b.local.base_addr && a.remote == b.remote
}

/// The first index of `s` whose pair shares `x`'s pruning key, or -1 when
/// none does.
pub open spec fn key_index(s: Seq<CandidatePair>, x: CandidatePair) -> int
    decreases s.len(),
{
    if s.len() == 0 {
        -1
    } else if same_key(s[0], x) {
        0
    } else if key_index(s.drop_first(), x) < 0 {
        -1
    } else {
        key_index(s.drop_first(), x) + 1
    }
}

/// `key_index` finds the first pair sharing the key, and finds none exactly
/// when none exists.
proof fn lemma_key_index(s: Seq<CandidatePair>, x: CandidatePair)
    ensures
        key_index(s, x) == -1 <==> (forall|k: int|
            0 <= k < s.len() ==> !(#[trigger] same_key(s[k], x))),
        key_index(s, x) != -1 ==> 0 <= key_index(s, x) < s.len() && same_key(
            s[key_index(s, x)],
            x,
        ) && (forall|k: int| 0 <= k < key_index(s, x) ==> !(#[trigger] same_key(s[k], x))),
    decreases s.len(),
{
    if s.len() > 0 && !same_key(s[0], x) {
        let tail = s.drop_first();
        lemma_key_index(tail, x);
        let kt = key_index(tail, x);
        if kt == -1 {
            assert forall|k: int| 0 <= k < s.len() implies !(#[trigger] same_key(s[k], x)) by {
                if k > 0 {
                    assert(s[k] == tail[k - 1]);
                    assert(!same_key(tail[k - 1], x));
                }
            }
        } else {
            assert(key_index(s, x) == kt + 1);
            assert(s[kt + 1] == tail[kt]);
            assert forall|k: int| 0 <= k < kt + 1 implies !(#[trigger] same_key(s[k], x)) by {
                if k > 0 {
                    assert(s[k] == tail[k - 1]);
                    assert(!same_key(tail[k - 1], x));
                }
            }
        }
    }
}

/// One step of pruning: fold `x` into an accumulated checklist. A pair with
/// a fresh key is appended; one whose key is already present survives only
/// if it beats the held pair's priority, in which case it takes its place.
pub open spec fn dedup_step(acc: Seq<CandidatePair>, x: CandidatePair, role: Role) -> Seq<
    CandidatePair,
> {
    let j = key_index(acc, x);
    if j < 0 {
        acc.push(x)
    } else if spec_pair_priority(x, role) > spec_pair_priority(acc[j], role) {
        acc.update(j, x)
    } else {
        acc
    }
}

/// The pruning fold over a whole pair sequence, left to right.
pub open spec fn dedup_pairs(pairs: Seq<CandidatePair>, role: Role) -> Seq<CandidatePair>
    decreases pairs.len(),
{
    if pairs.len() == 0 {
        Seq::empty()
    } else {
        dedup_step(dedup_pairs(pairs.drop_last(), role), pairs.last(), role)
    }
}

/// The position at which `x` is inserted when sorting: the index of the
/// first pair whose priority strictly exceeds `x`'s, so that a pair of equal
/// priority is placed after the pairs already present.
pub open spec fn insert_pos(s: Seq<CandidatePair>, x: CandidatePair, role: Role) -> int
    decreases s.len(),
{
    if s.len() == 0 {
        0
    } else if spec_pair_priority(x, role) < spec_pair_priority(s[0], role) {
        0
    } else {
        1 + insert_pos(s.drop_first(), x, role)
    }
}

/// `insert_pos` lands within bounds, after every pair it does not beat and
/// before the first pair it does.
proof fn lemma_insert_pos(s: Seq<CandidatePair>, x: CandidatePair, role: Role)
    ensures
        0 <= insert_pos(s, x, role) <= s.len(),
        forall|k: int|
            0 <= k < insert_pos(s, x, role) ==> #[trigger] spec_pair_priority(s[k], role)
                <= spec_pair_priority(x, role),
        insert_pos(s, x, role) < s.len() ==> spec_pair_priority(x, role) < spec_pair_priority(
            s[insert_pos(s, x, role)],
            role,
        ),
    decreases s.len(),
{
    if s.len() > 0 && !(spec_pair_priority(x, role) < spec_pair_priority(s[0], role)) {
        let tail = s.drop_first();
        lemma_insert_pos(tail, x, role);
        let ip = insert_pos(s, x, role);
        assert(ip == 1 + insert_pos(tail, x, role));
        assert forall|k: int|
            0 <= k < ip implies #[trigger] spec_pair_priority(s[k], role) <= spec_pair_priority(
            x,
            role,
        ) by {
            if k > 0 {
                assert(s[k] == tail[k - 1]);
                assert(spec_pair_priority(tail[k - 1], role) <= spec_pair_priority(x, role));
            }
        }
        if ip < s.len() {
            assert(s[ip] == tail[ip - 1]);
        }
    }
}

/// Insertion of one pair into an already sorted sequence.
pub open spec fn insert_sorted(s: Seq<CandidatePair>, x: CandidatePair, role: Role) -> Seq<
    CandidatePair,
> {
    s.insert(insert_pos(s, x, role), x)
}

/// Insertion sort of a pair sequence by pair priority, ascending.
pub open spec fn sort_pairs(s: Seq<CandidatePair>, role: Role) -> Seq<CandidatePair>
    decreases s.len(),
{
    if s.len() == 0 {
        Seq::empty()
    } else {
        insert_sorted(sort_pairs(s.drop_last(), role), s.last(), role)
    }
}

/// Non-decreasing pair priority along the sequence. This is the documented
/// direction of a pruned checklist: ascending, the highest-priority pair
/// last.
pub open spec fn sorted_by_pair_priority(s: Seq<CandidatePair>, role: Role) -> bool {
    forall|i: int, j: int|
        #![trigger s[i], s[j]]
        0 <= i <= j < s.len() ==> spec_pair_priority(s[i], role) <= spec_pair_priority(s[j], role)
}

/// Inserting at `insert_pos` keeps the sequence sorted.
proof fn lemma_insert_sorted_sorted(s: Seq<CandidatePair>, x: CandidatePair, role: Role)
    requires
        sorted_by_pair_priority(s, role),
    ensures
        sorted_by_pair_priority(insert_sorted(s, x, role), role),
{
    lemma_insert_pos(s, x, role);
    let ip = insert_pos(s, x, role);
    s.insert_ensures(ip, x);
    let t = insert_sorted(s, x, role);
    assert forall|i: int, j: int|
        #![trigger t[i], t[j]]
        0 <= i <= j < t.len() implies spec_pair_priority(t[i], role) <= spec_pair_priority(
        t[j],
        role,
    ) by {
        if i > ip {
            assert(t[i] == s[i - 1]);
        }
        if j > ip {
            assert(t[j] == s[j - 1]);
        }
    }
}

/// The whole of `sort_pairs` is sorted.
proof fn lemma_sort_pairs_sorted(s: Seq<CandidatePair>, role: Role)
    ensures
        sorted_by_pair_priority(sort_pairs(s, role), role),
    decreases s.len(),
{
    if s.len() > 0 {
        lemma_sort_pairs_sorted(s.drop_last(), role);
        lemma_insert_sorted_sorted(sort_pairs(s.drop_last(), role), s.last(), role);
    }
}

/// No two pairs of the sequence share a pruning key.
pub open spec fn distinct_keys(s: Seq<CandidatePair>) -> bool {
    forall|i: int, j: int|
        #![trigger s[i], s[j]]
        0 <= i < j < s.len() ==> !same_key(s[i], s[j])
}

/// Some pair of the sequence shares `x`'s pruning key.
pub open spec fn contains_key(s: Seq<CandidatePair>, x: CandidatePair) -> bool {
    exists|k: int| 0 <= k < s.len() && #[trigger] same_key(s[k], x)
}

/// A pruning step keeps the keys pairwise distinct.
proof fn lemma_dedup_step_distinct(acc: Seq<CandidatePair>, x: CandidatePair, role: Role)
    requires
        distinct_keys(acc),
    ensures
        distinct_keys(dedup_step(acc, x, role)),
{
    lemma_key_index(acc, x);
    let jj = key_index(acc, x);
    let t = dedup_step(acc, x, role);
    if jj < 0 {
        assert forall|i: int, j: int|
            #![trigger t[i], t[j]]
            0 <= i < j < t.len() implies !same_key(t[i], t[j]) by {
            if j == acc.len() {
                assert(t[i] == acc[i]);
                assert(!same_key(acc[i], x));
            } else {
                assert(t[i] == acc[i]);
                assert(t[j] == acc[j]);
            }
        }
    } else if spec_pair_priority(x, role) > spec_pair_priority(acc[jj], role) {
        assert(same_key(acc[jj], x));
        assert forall|i: int, j: int|
            #![trigger t[i], t[j]]
            0 <= i < j < t.len() implies !same_key(t[i], t[j]) by {
            if i == jj {
                assert(t[j] == acc[j]);
                assert(!same_key(acc[jj], acc[j]));
            } else if j == jj {
                assert(t[i] == acc[i]);
                assert(!same_key(acc[i], acc[jj]));
            } else {
                assert(t[i] == acc[i]);
                assert(t[j] == acc[j]);
            }
        }
    }
}

/// The pruning fold leaves pairwise distinct keys.
proof fn lemma_dedup_pairs_distinct(pairs: Seq<CandidatePair>, role: Role)
    ensures
        distinct_keys(dedup_pairs(pairs, role)),
    decreases pairs.len(),
{
    if pairs.len() > 0 {
        lemma_dedup_pairs_distinct(pairs.drop_last(), role);
        lemma_dedup_step_distinct(dedup_pairs(pairs.drop_last(), role), pairs.last(), role);
    }
}

/// On a sequence whose keys are already pairwise distinct the pruning fold
/// changes nothing.
proof fn lemma_dedup_identity(s: Seq<CandidatePair>, role: Role)
    requires
        distinct_keys(s),
    ensures
        dedup_pairs(s, role) == s,
    decreases s.len(),
{
    if s.len() > 0 {
        let d = s.drop_last();
        assert(forall|k: int| 0 <= k < d.len() ==> d[k] == s[k]);
        assert forall|i: int, j: int|
            #![trigger d[i], d[j]]
            0 <= i < j < d.len() implies !same_key(d[i], d[j]) by {
            assert(d[i] == s[i]);
            assert(d[j] == s[j]);
        }
        lemma_dedup_identity(d, role);
        lemma_key_index(d, s.last());
        assert forall|k: int| 0 <= k < d.len() implies !(#[trigger] same_key(d[k], s.last())) by {
            assert(d[k] == s[k]);
            assert(!same_key(s[k], s[s.len() - 1]));
        }
        assert(key_index(d, s.last()) == -1);
        assert(d.push(s.last()) =~= s);
    }
}

/// Sorted insertion neither loses nor invents a pruning key, and keeps keys
/// pairwise distinct when the inserted key is fresh.
proof fn lemma_insert_sorted_keys(s: Seq<CandidatePair>, x: CandidatePair, role: Role)
    ensures
        forall|y: CandidatePair| #[trigger]
            contains_key(insert_sorted(s, x, role), y) <==> (contains_key(s, y) || same_key(x, y)),
        distinct_keys(s) && !contains_key(s, x) ==> distinct_keys(insert_sorted(s, x, role)),
{
    lemma_insert_pos(s, x, role);
    let ip = insert_pos(s, x, role);
    s.insert_ensures(ip, x);
    let t = insert_sorted(s, x, role);
    assert forall|y: CandidatePair| #[trigger]
        contains_key(t, y) <==> (contains_key(s, y) || same_key(x, y)) by {
        if contains_key(t, y) {
            let k = choose|k: int| 0 <= k < t.len() && #[trigger] same_key(t[k], y);
            if k < ip {
                assert(t[k] == s[k]);
                assert(same_key(s[k], y));
            } else if k > ip {
                assert(t[k] == s[k - 1]);
                assert(same_key(s[k - 1], y));
            }
        }
        if contains_key(s, y) {
            let k = choose|k: int| 0 <= k < s.len() && #[trigger] same_key(s[k], y);
            if k < ip {
                assert(same_key(t[k], y));
            } else {
                assert(t[k + 1] == s[k]);
                assert(same_key(t[k + 1], y));
            }
        }
        if same_key(x, y) {
            assert(same_key(t[ip], y));
        }
    }
    if distinct_keys(s) && !contains_key(s, x) {
        assert forall|i: int, j: int|
            #![trigger t[i], t[j]]
            0 <= i < j < t.len() implies !same_key(t[i], t[j]) by {
            if i == ip {
                assert(t[j] == s[j - 1]);
                if same_key(x, s[j - 1]) {
                    assert(same_key(s[j - 1], x));
                    assert(false);
                }
            } else if j == ip {
                assert(t[i] == s[i]);
                if same_key(s[i], x) {
                    assert(false);
                }
            } else {
                let si: int = if i < ip { i } else { i - 1 };
                let sj: int = if j < ip { j } else { j - 1 };
                assert(t[i] == s[si]);
                assert(t[j] == s[sj]);
                assert(!same_key(s[si], s[sj]));
            }
        }
    }
}

/// The sort neither loses nor invents a pruning key, and keeps keys pairwise
/// distinct.
proof fn lemma_sort_pairs_keys(s: Seq<CandidatePair>, role: Role)
    ensures
        forall|y: CandidatePair| #[trigger]
            contains_key(sort_pairs(s, role), y) <==> contains_key(s, y),
        distinct_keys(s) ==> distinct_keys(sort_pairs(s, role)),
    decreases s.len(),
{
    if s.len() > 0 {
        let d = s.drop_last();
        assert(forall|k: int| 0 <= k < d.len() ==> d[k] == s[k]);
        lemma_sort_pairs_keys(d, role);
        lemma_insert_sorted_keys(sort_pairs(d, role), s.last(), role);
        assert(sort_pairs(s, role) == insert_sorted(sort_pairs(d, role), s.last(), role));
        assert forall|y: CandidatePair| #[trigger]
            contains_key(sort_pairs(s, role), y) <==> contains_key(s, y) by {
            assert(contains_key(sort_pairs(s, role), y) <==> (contains_key(sort_pairs(d, role), y)
                || same_key(s.last(), y)));
            assert(contains_key(sort_pairs(d, role), y) <==> contains_key(d, y));
            if contains_key(d, y) {
                let k = choose|k: int| 0 <= k < d.len() && #[trigger] same_key(d[k], y);
                assert(same_key(s[k], y));
            }
            if same_key(s.last(), y) {
                assert(same_key(s[s.len() - 1], y));
            }
            if contains_key(s, y) {
                let k = choose|k: int| 0 <= k < s.len() && #[trigger] same_key(s[k], y);
                if k < s.len() - 1 {
                    assert(same_key(d[k], y));
                } else {
                    assert(same_key(s.last(), y));
                }
            }
        }
        if distinct_keys(s) {
            assert forall|i: int, j: int|
                #![trigger d[i], d[j]]
                0 <= i < j < d.len() implies !same_key(d[i], d[j]) by {
                assert(d[i] == s[i]);
                assert(d[j] == s[j]);
            }
            if contains_key(sort_pairs(d, role), s.last()) {
                assert(contains_key(d, s.last()));
                let k = choose|k: int| 0 <= k < d.len() && #[trigger] same_key(d[k], s.last());
                assert(same_key(s[k], s[s.len() - 1]));
                assert(false);
            }
        }
    }
}

/// Sorting an already sorted sequence yields it unchanged: each element in
/// turn is at least as high as all before it, so it lands at the end.
proof fn lemma_sort_identity(s: Seq<CandidatePair>, role: Role)
    requires
        sorted_by_pair_priority(s, role),
    ensures
        sort_pairs(s, role) == s,
    decreases s.len(),
{
    if s.len() > 0 {
        let d = s.drop_last();
        assert(forall|k: int| 0 <= k < d.len() ==> d[k] == s[k]);
        assert forall|i: int, j: int|
            #![trigger d[i], d[j]]
            0 <= i <= j < d.len() implies spec_pair_priority(d[i], role) <= spec_pair_priority(
            d[j],
            role,
        ) by {
            assert(d[i] == s[i]);
            assert(d[j] == s[j]);
        }
        lemma_sort_identity(d, role);
        lemma_insert_pos(d, s.last(), role);
        let ip = insert_pos(d, s.last(), role);
        if ip < d.len() {
            assert(d[ip] == s[ip]);
            assert(spec_pair_priority(s[ip], role) <= spec_pair_priority(s[s.len() - 1], role));
            assert(false);
        }
        assert(d.insert(d.len() as int, s.last()) =~= s);
    }
}

/// Idempotence of pruning: pruning an already pruned pair sequence again
/// with the same role yields it unchanged, with no further reduction and no
/// reorder.
pub proof fn lemma_prune_idempotent(pairs: Seq<CandidatePair>, role: Role)
    ensures
        pruned_pairs(pruned_pairs(pairs, role), role) == pruned_pairs(pairs, role),
{
    let d = dedup_pairs(pairs, role);
    let out = sort_pairs(d, role);
    lemma_dedup_pairs_distinct(pairs, role);
    lemma_sort_pairs_keys(d, role);
    lemma_sort_pairs_sorted(d, role);
    lemma_dedup_identity(out, role);
    lemma_sort_identity(out, role);
}

/// What pruning leaves: the key-wise survivors, sorted ascending by pair
/// priority.
pub open spec fn pruned_pairs(pairs: Seq<CandidatePair>, role: Role) -> Seq<CandidatePair> {
    sort_pairs(dedup_pairs(pairs, role), role)
}

impl Checklist {
    /// Every pair of the checklist has both components in range.
    pub open spec fn wf(self) -> bool {
        forall|k: int| 0 <= k < self.pairs@.len() ==> (#[trigger] self.pairs@[k]).wf()
    }

    /// Prunes and orders the pairs, RFC 8445 section 6.1.2.4. Of the pairs
    /// sharing one pruning key (same local base address and identical remote
    /// candidate) only the highest-priority one survives; the survivors are
    /// sorted by pair priority, ascending. The checklist state is unchanged:
    /// pruning only shapes the pair set, it runs no checks.
    pub fn prune(self, role: Role) -> (r: Checklist)
        requires
            self.wf(),
        ensures
            r.pairs@ == pruned_pairs(self.pairs@, role),
            r.state == self.state,
            sorted_by_pair_priority(r.pairs@, role),
            distinct_keys(r.pairs@),
    {
        let mut kept: Vec<CandidatePair> = Vec::new();
        let mut i: usize = 0;
        while i < self.pairs.len()
            invariant
                i <= self.pairs.len(),
                self.wf(),
                kept@ == dedup_pairs(self.pairs@.take(i as int), role),
                forall|k: int| 0 <= k < kept@.len() ==> (#[trigger] kept@[k]).wf(),
            decreases self.pairs.len() - i,
        {
            let x = self.pairs[i];
            let mut j: usize = 0;
            while j < kept.len() && !(kept[j].local.base_addr == x.local.base_addr
                && kept[j].remote == x.remote)
                invariant
                    j <= kept.len(),
                    forall|k: int| 0 <= k < j ==> !(#[trigger] same_key(kept@[k], x)),
                decreases kept.len() - j,
            {
                j = j + 1;
            }
            proof {
                lemma_key_index(kept@, x);
            }
            if j < kept.len() {
                proof {
                    assert(same_key(kept@[j as int], x));
                    assert(key_index(kept@, x) == j as int);
                }
                if x.priority(role) > kept[j].priority(role) {
                    kept.set(j, x);
                }
            } else {
                proof {
                    assert(key_index(kept@, x) == -1);
                }
                kept.push(x);
            }
            i = i + 1;
            proof {
                assert(self.pairs@.take(i as int).drop_last() =~= self.pairs@.take(i - 1));
                assert(self.pairs@.take(i as int).last() == self.pairs@[i - 1]);
                assert(kept@ == dedup_step(dedup_pairs(self.pairs@.take(i - 1), role), x, role));
            }
        }
        proof {
            assert(self.pairs@.take(self.pairs@.len() as int) =~= self.pairs@);
        }
        let mut sorted: Vec<CandidatePair> = Vec::new();
        let mut i: usize = 0;
        while i < kept.len()
            invariant
                i <= kept.len(),
                sorted@ == sort_pairs(kept@.take(i as int), role),
                forall|k: int| 0 <= k < kept@.len() ==> (#[trigger] kept@[k]).wf(),
                forall|k: int| 0 <= k < sorted@.len() ==> (#[trigger] sorted@[k]).wf(),
            decreases kept.len() - i,
        {
            let x = kept[i];
            let px = x.priority(role);
            let mut j: usize = 0;
            while j < sorted.len() && px >= sorted[j].priority(role)
                invariant
                    j <= sorted.len(),
                    px as int == spec_pair_priority(x, role),
                    forall|k: int| 0 <= k < sorted@.len() ==> (#[trigger] sorted@[k]).wf(),
                    forall|k: int|
                        0 <= k < j ==> #[trigger] spec_pair_priority(sorted@[k], role)
                            <= spec_pair_priority(x, role),
                decreases sorted.len() - j,
            {
                j = j + 1;
            }
            proof {
                lemma_insert_pos(sorted@, x, role);
            }
            sorted.insert(j, x);
            i = i + 1;
            proof {
                assert(kept@.take(i as int).drop_last() =~= kept@.take(i - 1));
                assert(kept@.take(i as int).last() == kept@[i - 1]);
            }
        }
        proof {
            assert(kept@.take(kept@.len() as int) =~= kept@);
            lemma_sort_pairs_sorted(kept@, role);
            lemma_dedup_pairs_distinct(self.pairs@, role);
            lemma_sort_pairs_keys(kept@, role);
        }
        Checklist { pairs: sorted, state: self.state }
    }
}

} // verus!
