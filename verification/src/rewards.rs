//! The reward schedule and the mints it drives: rewards for kinds of work, the
//! periodic catch-up evaluation, training rewards and inference charges.

use vstd::prelude::*;
use crate::ledger::{LedgerEntry, LedgerError, balance, max_timestamp_prefix, next_timestamp, next_ledger_timestamp, wallet_balance, law_timestamps_increase};
use crate::text::str_is;

verus! {

/// One row of the reward schedule: what a kind of work earns, and whether it is paid.
#[derive(Clone, Debug)]
pub struct ScheduleEntry {
    pub work_type: String,
    pub reward: i64,
    pub enabled: bool,
}

/// Why a schedule change was refused.
#[derive(Clone, Copy, Debug, PartialEq, Eq, Structural)]
pub enum RewardError {
    RewardNotPositive,
}

/// A schedule row as plain values.
pub open spec fn entry_view(e: ScheduleEntry) -> (Seq<char>, i64, bool) {
    (e.work_type@, e.reward, e.enabled)
}

pub open spec fn schedule_view(s: Seq<ScheduleEntry>) -> Seq<(Seq<char>, i64, bool)> {
    s.map_values(|e: ScheduleEntry| entry_view(e))
}

/// The index of the first row for `work_type`, if any.
pub open spec fn rule_index(s: Seq<(Seq<char>, i64, bool)>, work_type: Seq<char>) -> Option<int>
    decreases s.len(),
{
    if s.len() == 0 {
        None
    } else {
        match rule_index(s.drop_last(), work_type) {
            Some(i) => Some(i),
            None => if s.last().0 == work_type { Some(s.len() - 1) } else { None },
        }
    }
}

/// The reward and the enabled flag that the schedule gives `work_type`.
pub open spec fn rule_for(s: Seq<(Seq<char>, i64, bool)>, work_type: Seq<char>) -> Option<(i64, bool)> {
    match rule_index(s, work_type) {
        Some(i) => Some((s[i].1, s[i].2)),
        None => None,
    }
}

/// The schedule after `set_reward`: the row for `work_type` is replaced, or added at the end.
pub open spec fn schedule_after_set(s: Seq<(Seq<char>, i64, bool)>, work_type: Seq<char>, reward: i64, enabled: bool) -> Seq<(Seq<char>, i64, bool)> {
    match rule_index(s, work_type) {
        Some(i) => s.update(i, (work_type, reward, enabled)),
        None => s.push((work_type, reward, enabled)),
    }
}

proof fn lemma_rule_index(s: Seq<(Seq<char>, i64, bool)>, w: Seq<char>)
    ensures
        rule_index(s, w) matches Some(i) ==> 0 <= i < s.len() && s[i].0 == w
            && forall|k: int| 0 <= k < i ==> (#[trigger] s[k]).0 != w,
        rule_index(s, w) is None ==> forall|k: int| 0 <= k < s.len() ==> (#[trigger] s[k]).0 != w,
    decreases s.len(),
{
    if s.len() > 0 {
        lemma_rule_index(s.drop_last(), w);
        assert forall|k: int| 0 <= k < s.len() - 1 implies s.drop_last()[k] == s[k] by {}
    }
}

/// `rule_index` is the first row whose work type matches.
proof fn lemma_rule_index_unique(s: Seq<(Seq<char>, i64, bool)>, w: Seq<char>, i: int)
    requires
        0 <= i < s.len(),
        s[i].0 == w,
        forall|k: int| 0 <= k < i ==> (#[trigger] s[k]).0 != w,
    ensures
        rule_index(s, w) == Some(i),
    decreases s.len(),
{
    lemma_rule_index(s, w);
    if i < s.len() - 1 {
        assert(s.drop_last()[i] == s[i]);
        assert forall|k: int| 0 <= k < i implies (#[trigger] s.drop_last()[k]).0 != w by {
            assert(s.drop_last()[k] == s[k]);
        }
        lemma_rule_index_unique(s.drop_last(), w, i);
    } else {
        lemma_rule_index(s.drop_last(), w);
        assert forall|k: int| 0 <= k < s.drop_last().len() implies (#[trigger] s.drop_last()[k]).0 != w by {
            assert(s.drop_last()[k] == s[k]);
        }
    }
}

/// A reward that `set_reward` stores is what the schedule then gives for that work type,
/// and no other work type's rule changes.
pub proof fn law_set_reward_then_lookup(
    s: Seq<(Seq<char>, i64, bool)>,
    work_type: Seq<char>,
    reward: i64,
    enabled: bool,
    other: Seq<char>,
)
    ensures
        rule_for(schedule_after_set(s, work_type, reward, enabled), work_type) == Some((reward, enabled)),
        other != work_type ==> rule_for(schedule_after_set(s, work_type, reward, enabled), other) == rule_for(s, other),
{
    lemma_rule_index(s, work_type);
    lemma_rule_index(s, other);
    let s2 = schedule_after_set(s, work_type, reward, enabled);
    lemma_rule_index(s2, other);
    match rule_index(s, work_type) {
        Some(i) => {
            assert forall|k: int| 0 <= k < i implies (#[trigger] s2[k]).0 != work_type by {
                assert(s2[k] == s[k]);
            }
            lemma_rule_index_unique(s2, work_type, i);
            if other != work_type {
                match rule_index(s, other) {
                    Some(j) => {
                        assert(j != i);
                        assert forall|k: int| 0 <= k < j implies (#[trigger] s2[k]).0 != other by {
                            if k != i {
                                assert(s2[k] == s[k]);
                            }
                        }
                        lemma_rule_index_unique(s2, other, j);
                    },
                    None => {
                        assert forall|k: int| 0 <= k < s2.len() implies (#[trigger] s2[k]).0 != other by {
                            if k != i {
                                assert(s2[k] == s[k]);
                            }
                        }
                        if rule_index(s2, other) is Some {
                            assert(false);
                        }
                    },
                }
            }
        },
        None => {
            assert forall|k: int| 0 <= k < s.len() implies (#[trigger] s2[k]).0 != work_type by {
                assert(s2[k] == s[k]);
            }
            lemma_rule_index_unique(s2, work_type, s.len() as int);
            if other != work_type {
                match rule_index(s, other) {
                    Some(j) => {
                        assert forall|k: int| 0 <= k < j implies (#[trigger] s2[k]).0 != other by {
                            assert(s2[k] == s[k]);
                        }
                        lemma_rule_index_unique(s2, other, j);
                    },
                    None => {
                        assert forall|k: int| 0 <= k < s2.len() implies (#[trigger] s2[k]).0 != other by {
                            if k < s.len() {
                                assert(s2[k] == s[k]);
                            }
                        }
                        if rule_index(s2, other) is Some {
                            assert(false);
                        }
                    },
                }
            }
        },
    }
}

/// The position of the schedule row for `work_type`, if any.
pub fn find_rule(schedule: &[ScheduleEntry], work_type: &str) -> (r: Option<usize>)
    ensures
        r matches Some(i) ==> rule_index(schedule_view(schedule@), work_type@) == Some(i as int),
        r is None ==> rule_index(schedule_view(schedule@), work_type@) is None,
{
    let ghost sv = schedule_view(schedule@);
    proof {
        lemma_rule_index(sv, work_type@);
    }
    let mut i: usize = 0;
    while i < schedule.len()
        invariant
            i <= schedule@.len(),
            sv == schedule_view(schedule@),
            sv.len() == schedule@.len(),
            forall|k: int| 0 <= k < i ==> (#[trigger] sv[k]).0 != work_type@,
        decreases schedule@.len() - i,
    {
        if str_is(schedule[i].work_type.as_str(), work_type) {
            proof {
                lemma_rule_index_unique(sv, work_type@, i as int);
            }
            return Some(i);
        }
        i = i + 1;
    }
    proof {
        if rule_index(sv, work_type@) is Some {
            assert(false);
        }
    }
    None
}

/// Create or update the schedule row for `work_type`; `enabled` defaults to on.
/// Refused unless the reward is positive.
pub fn set_reward(schedule: &mut Vec<ScheduleEntry>, work_type: &str, reward: i64, enabled: Option<bool>) -> (r: Result<ScheduleEntry, RewardError>)
    ensures
        reward <= 0 ==> r is Err && final(schedule)@ == old(schedule)@,
        reward > 0 ==> r is Ok && schedule_view(final(schedule)@) == schedule_after_set(
            schedule_view(old(schedule)@), work_type@, reward, enabled.unwrap_or(true)),
        r matches Ok(e) ==> entry_view(e) == (work_type@, reward, enabled.unwrap_or(true)),
{
    if reward <= 0 {
        return Err(RewardError::RewardNotPositive);
    }
    let en = match enabled {
        Some(b) => b,
        None => true,
    };
    let row = ScheduleEntry { work_type: work_type.to_string(), reward, enabled: en };
    let stored = ScheduleEntry { work_type: work_type.to_string(), reward, enabled: en };
    let ghost before = schedule@;
    proof {
        lemma_rule_index(schedule_view(before), work_type@);
    }
    match find_rule(schedule.as_slice(), work_type) {
        Some(i) => {
            let _old_row = schedule.remove(i);
            schedule.insert(i, stored);
            proof {
                assert(schedule@ =~= before.update(i as int, stored));
            }
        },
        None => {
            schedule.push(stored);
        },
    }
    proof {
        assert(schedule_view(schedule@) =~= schedule_after_set(schedule_view(before), work_type@, reward, en));
    }
    Ok(row)
}

/// The mint that a paid piece of work gets: the schedule's reward for its work type,
/// minted into the instance wallet. Nothing is minted when the work type has no row or
/// its row is disabled.
pub fn mint_reward(
    ledger: &mut Vec<LedgerEntry>,
    schedule: &[ScheduleEntry],
    work_type: &str,
    instance_wallet: u128,
) -> (r: Result<Option<LedgerEntry>, LedgerError>)
    ensures
        match rule_for(schedule_view(schedule@), work_type@) {
            Some((reward, true)) => if next_timestamp(old(ledger)@) <= i64::MAX {
                let e = LedgerEntry {
                    from_wallet: None,
                    to_wallet: instance_wallet,
                    amount: reward,
                    timestamp: next_timestamp(old(ledger)@) as i64,
                };
                r == Ok::<Option<LedgerEntry>, LedgerError>(Some(e)) && final(ledger)@ == old(ledger)@.push(e)
            } else {
                r == Err::<Option<LedgerEntry>, LedgerError>(LedgerError::TimestampExhausted)
                    && final(ledger)@ == old(ledger)@
            },
            _ => r == Ok::<Option<LedgerEntry>, LedgerError>(None) && final(ledger)@ == old(ledger)@,
        },
{
    let ghost sv = schedule_view(schedule@);
    proof {
        lemma_rule_index(sv, work_type@);
    }
    let i = match find_rule(schedule, work_type) {
        Some(i) => i,
        None => return Ok(None),
    };
    if !schedule[i].enabled {
        return Ok(None);
    }
    let reward = schedule[i].reward;
    assert(sv[i as int] == entry_view(schedule@[i as int]));
    let ts = match next_ledger_timestamp(ledger.as_slice()) {
        Some(t) => t,
        None => return Err(LedgerError::TimestampExhausted),
    };
    let e = LedgerEntry { from_wallet: None, to_wallet: instance_wallet, amount: reward, timestamp: ts };
    push_entry(ledger, e);
    Ok(Some(e))
}

/// Append an entry.
fn push_entry(ledger: &mut Vec<LedgerEntry>, e: LedgerEntry)
    ensures
        final(ledger)@ == old(ledger)@.push(e),
{
    ledger.push(e);
}

proof fn lemma_max_timestamp_bound(l: Seq<LedgerEntry>, n: int)
    ensures
        max_timestamp_prefix(l, n) <= i64::MAX,
    decreases n,
{
    if n > 0 {
        lemma_max_timestamp_bound(l, n - 1);
    }
}

proof fn lemma_next_timestamp_bound(l: Seq<LedgerEntry>)
    ensures
        next_timestamp(l) <= i64::MAX + 1,
{
    lemma_max_timestamp_bound(l, l.len() as int);
}

/// An entry that mints `amount` into `to` at the ledger's next timestamp.
pub open spec fn mint_at_next(l: Seq<LedgerEntry>, to: u128, amount: int) -> LedgerEntry {
    LedgerEntry { from_wallet: None, to_wallet: to, amount: amount as i64, timestamp: next_timestamp(l) as i64 }
}

/// The catch-up bonus for parsed nodes: one nKoi per node, at most 100, paid only while
/// no parse has been rewarded yet.
pub open spec fn parse_bonus(node_count: int, rewarded_parses: int) -> Option<int> {
    if node_count > 0 && rewarded_parses == 0 {
        Some(if node_count < 100 { node_count } else { 100 })
    } else {
        None
    }
}

/// The catch-up bonus for versions: the version rate for each version not yet rewarded,
/// paid only while a rate is configured.
pub open spec fn version_bonus(version_count: int, rewarded_versions: int, rate: Option<i64>) -> Option<int> {
    if version_count > rewarded_versions && rate is Some {
        Some((version_count - rewarded_versions) * rate->0)
    } else {
        None
    }
}

/// The catch-up parse bonus: paid only while there are nodes and no parse has been
/// rewarded; it is one nKoi per node up to 100 nodes and 100 beyond, so it never exceeds
/// the node count nor 100.
pub proof fn law_parse_bonus_capped(node_count: int, rewarded_parses: int)
    ensures
        parse_bonus(node_count, rewarded_parses) is Some <==> (node_count > 0 && rewarded_parses == 0),
        parse_bonus(node_count, rewarded_parses) matches Some(b) ==> {
            &&& 0 < b <= 100
            &&& b <= node_count
            &&& node_count <= 100 ==> b == node_count
            &&& node_count >= 100 ==> b == 100
        },
{
}

/// The catch-up version bonus: paid only with a rate and versions not yet rewarded; each
/// unrewarded version adds one rate to it.
pub proof fn law_version_bonus_per_version(version_count: int, rewarded_versions: int, rate: Option<i64>)
    ensures
        version_bonus(version_count, rewarded_versions, rate) is Some
            <==> (rate is Some && version_count > rewarded_versions),
        rate matches Some(r) ==> version_count >= rewarded_versions ==>
            version_bonus(version_count + 1, rewarded_versions, rate)
                == Some(match version_bonus(version_count, rewarded_versions, rate) { Some(b) => b, None => 0int } + r),
        rate matches Some(r) ==> version_count == rewarded_versions + 1 ==>
            version_bonus(version_count, rewarded_versions, rate) == Some(r as int),
{
    if let Some(r) = rate {
        let d = version_count - rewarded_versions;
        assert((d + 1) * r == d * r + r) by (nonlinear_arith);
        assert(version_count + 1 - rewarded_versions == d + 1);
        if d == 0 {
            assert(d * r == 0) by (nonlinear_arith) requires d == 0;
        }
        if d == 1 {
            assert(d * r == r) by (nonlinear_arith) requires d == 1;
        }
    }
}

/// Bonuses are paid once: once a parse bonus has been paid and counted among the
/// rewarded parses, and the versions a version bonus paid are counted as rewarded, a
/// second evaluation over the same work pays neither again.
pub proof fn law_bonus_paid_once(node_count: int, rewarded_parses: int, version_count: int, rewarded_versions: int, rate: Option<i64>)
    requires
        rewarded_parses >= 0,
    ensures
        parse_bonus(node_count, rewarded_parses) is Some ==> parse_bonus(node_count, rewarded_parses + 1) is None,
        version_bonus(version_count, rewarded_versions, rate) is Some
            ==> version_bonus(version_count, rewarded_versions + (version_count - rewarded_versions), rate) is None,
{
}

/// A bonus and the count it was computed from.
#[derive(Clone, Copy, Debug, PartialEq, Eq, Structural)]
pub struct Bonus {
    pub reward: i64,
    pub count: i64,
}

/// What one evaluation minted.
#[derive(Clone, Copy, Debug, PartialEq, Eq, Structural)]
pub struct MiningReport {
    /// The parse bonus, with the node count.
    pub parse_bonus: Option<Bonus>,
    /// The version bonus, with the number of unrewarded versions.
    pub version_bonus: Option<Bonus>,
}

/// The ledger after an evaluation that pays the given bonuses, parse bonus first.
pub open spec fn ledger_after_mining(l: Seq<LedgerEntry>, wallet: u128, pb: Option<int>, vb: Option<int>) -> Seq<LedgerEntry> {
    let l1 = match pb {
        Some(b) => l.push(mint_at_next(l, wallet, b)),
        None => l,
    };
    match vb {
        Some(b) => l1.push(mint_at_next(l1, wallet, b)),
        None => l1,
    }
}

/// The number of mints an evaluation makes.
pub open spec fn mint_count(pb: Option<int>, vb: Option<int>) -> int {
    (if pb is Some { 1int } else { 0int }) + (if vb is Some { 1int } else { 0int })
}

/// Periodic evaluation: mint the catch-up bonuses for unrewarded work into the instance
/// wallet. The counts come from the database; `version_rate` is the enabled schedule rate
/// for versions, if any. Refused, with nothing minted, when the ledger's timestamps run out.
pub fn evaluate_mining(
    ledger: &mut Vec<LedgerEntry>,
    instance_wallet: u128,
    node_count: i64,
    rewarded_parses: i64,
    version_count: i64,
    rewarded_versions: i64,
    version_rate: Option<i64>,
) -> (r: Result<MiningReport, LedgerError>)
    requires
        rewarded_versions >= 0,
        version_count >= 0,
        version_bonus(version_count as int, rewarded_versions as int, version_rate) matches Some(b)
            ==> i64::MIN <= b <= i64::MAX,
    ensures
        ({
            let pb = parse_bonus(node_count as int, rewarded_parses as int);
            let vb = version_bonus(version_count as int, rewarded_versions as int, version_rate);
            &&& r is Ok <==> next_timestamp(old(ledger)@) + mint_count(pb, vb) - 1 <= i64::MAX
            &&& r is Err ==> r == Err::<MiningReport, LedgerError>(LedgerError::TimestampExhausted)
                && final(ledger)@ == old(ledger)@
            &&& r matches Ok(rep) ==> {
                &&& final(ledger)@ == ledger_after_mining(old(ledger)@, instance_wallet, pb, vb)
                &&& rep.parse_bonus == (match pb {
                    Some(b) => Some(Bonus { reward: b as i64, count: node_count }),
                    None => None::<Bonus>,
                })
                &&& rep.version_bonus == (match vb {
                    Some(b) => Some(Bonus { reward: b as i64, count: (version_count - rewarded_versions) as i64 }),
                    None => None::<Bonus>,
                })
            }
        }),
{
    proof {
        lemma_next_timestamp_bound(ledger@);
    }
    let pay_parse = node_count > 0 && rewarded_parses == 0;
    let pay_versions = version_count > rewarded_versions && version_rate.is_some();
    let first = match next_ledger_timestamp(ledger.as_slice()) {
        Some(t) => t,
        None => {
            if pay_parse || pay_versions {
                return Err(LedgerError::TimestampExhausted);
            }
            return Ok(MiningReport { parse_bonus: None, version_bonus: None });
        },
    };
    if pay_parse && pay_versions && first == i64::MAX {
        return Err(LedgerError::TimestampExhausted);
    }
    let mut report = MiningReport { parse_bonus: None, version_bonus: None };
    if pay_parse {
        let bonus = if node_count < 100 { node_count } else { 100 };
        let e = LedgerEntry { from_wallet: None, to_wallet: instance_wallet, amount: bonus, timestamp: first };
        proof {
            law_timestamps_increase(ledger@, e);
        }
        push_entry(ledger, e);
        report.parse_bonus = Some(Bonus { reward: bonus, count: node_count });
    }
    if pay_versions {
        let unrewarded = version_count - rewarded_versions;
        let rate = match version_rate {
            Some(x) => x,
            None => 0,
        };
        let bonus = unrewarded * rate;
        let ts = if pay_parse { first + 1 } else { first };
        let e = LedgerEntry { from_wallet: None, to_wallet: instance_wallet, amount: bonus, timestamp: ts };
        push_entry(ledger, e);
        report.version_bonus = Some(Bonus { reward: bonus, count: unrewarded });
    }
    Ok(report)
}

/// The training reward: the base reward for each full ten steps, and at least once.
pub open spec fn training_reward(base: int, steps: int) -> int {
    base * (if steps / 10 > 1 { steps / 10 } else { 1 })
}

/// Training rewards grow with whole tens of steps, without a cap: below twenty steps the
/// reward is the base reward once, ten more steps from ten on add one more base reward,
/// and steps short of a whole ten earn nothing extra. So `k` tens of steps (`k >= 1`)
/// earn exactly `k` base rewards (100 steps earn ten times the base).
pub proof fn law_training_reward_per_ten_steps(base: int, steps: int)
    requires
        steps >= 0,
    ensures
        steps < 20 ==> training_reward(base, steps) == base,
        steps >= 10 ==> training_reward(base, steps + 10) == training_reward(base, steps) + base,
        training_reward(base, steps) == training_reward(base, steps - steps % 10),
        steps >= 10 ==> training_reward(base, steps) == base * (steps / 10),
{
    assert((steps + 10) / 10 == steps / 10 + 1);
    assert((steps - steps % 10) / 10 == steps / 10);
    if steps >= 10 {
        assert(steps / 10 >= 1);
        assert(base * (steps / 10 + 1) == base * (steps / 10) + base) by (nonlinear_arith);
    }
}

/// Mint an agent's training reward into its wallet at the given operation timestamp.
/// Nothing is minted when the agent has no wallet or no training reward is configured.
pub fn mint_training_reward(
    ledger: &mut Vec<LedgerEntry>,
    agent_wallet: Option<u128>,
    base_reward: Option<i64>,
    steps: u64,
    timestamp: i64,
) -> (r: Option<LedgerEntry>)
    requires
        timestamp >= 0,
        steps <= i64::MAX,
        base_reward matches Some(b) ==> i64::MIN <= training_reward(b as int, steps as int) <= i64::MAX,
    ensures
        (agent_wallet is None || base_reward is None) ==> r is None && final(ledger)@ == old(ledger)@,
        agent_wallet matches Some(w) ==> base_reward matches Some(b) ==> {
            let e = LedgerEntry {
                from_wallet: None,
                to_wallet: w,
                amount: training_reward(b as int, steps as int) as i64,
                timestamp,
            };
            r == Some(e) && final(ledger)@ == old(ledger)@.push(e)
        },
{
    let w = match agent_wallet {
        Some(w) => w,
        None => return None,
    };
    let base = match base_reward {
        Some(b) => b,
        None => return None,
    };
    let tens: i64 = (steps / 10) as i64;
    let mult: i64 = if tens > 1 { tens } else { 1 };
    let reward = base * mult;
    let e = LedgerEntry { from_wallet: None, to_wallet: w, amount: reward, timestamp };
    push_entry(ledger, e);
    Some(e)
}

/// Charge an agent's wallet for one inference, paid to the instance wallet at the given
/// operation timestamp. Nothing is charged when the agent has no wallet, no price is
/// configured, or the wallet's balance is below the price: inference is never blocked.
pub fn deduct_inference_cost(
    ledger: &mut Vec<LedgerEntry>,
    agent_wallet: Option<u128>,
    unit_cost: Option<i64>,
    instance_wallet: u128,
    timestamp: i64,
) -> (r: Option<LedgerEntry>)
    requires
        timestamp >= 0,
    ensures
        r is None ==> final(ledger)@ == old(ledger)@,
        r is Some <==> (agent_wallet is Some && unit_cost is Some
            && balance(old(ledger)@, agent_wallet->0) >= unit_cost->0),
        r matches Some(e) ==> e == (LedgerEntry {
            from_wallet: agent_wallet,
            to_wallet: instance_wallet,
            amount: unit_cost->0,
            timestamp,
        }) && final(ledger)@ == old(ledger)@.push(e),
{
    let w = match agent_wallet {
        Some(w) => w,
        None => return None,
    };
    let cost = match unit_cost {
        Some(c) => c,
        None => return None,
    };
    let bal = wallet_balance(ledger.as_slice(), w);
    if bal < cost as i128 {
        return None;
    }
    let e = LedgerEntry { from_wallet: Some(w), to_wallet: instance_wallet, amount: cost, timestamp };
    push_entry(ledger, e);
    Some(e)
}

} // verus!
