//! The monthly population step of the active agents: the months a pass
//! catches up on, the agents that die in a month, and the children born in
//! it, with their ids, mothers, birth tick and inherited markets. The
//! demographic draws (ages, probabilities, the density factor) are real
//! valued and come from the caller as booleans.
use vstd::prelude::*;

use crate::ids::{AgentId, born_agent_id, born_id};
use crate::plan::queue_view;

verus! {

/// An agent as the population step sees it: whether it still takes part
/// (it is alive and has a birth tick), its sex, and its market binding
/// (`0` for a market not assigned).
#[derive(Debug, Clone)]
pub struct PopulationMember {
    pub id: AgentId,
    pub alive: bool,
    pub female: bool,
    pub home_market: u32,
    pub work_market: u32,
}

/// A child born in a month: its id, its mother (by id and by index among
/// the members), the tick it was born at, and the markets it inherits.
#[derive(Debug, Clone)]
pub struct BornChild {
    pub id: AgentId,
    pub parent: AgentId,
    pub mother: usize,
    pub birth_tick: u64,
    pub home_market: u32,
    pub work_market: u32,
}

/// A member as id, whether alive, whether female, and markets.
pub open spec fn member_view(m: PopulationMember) -> (Seq<char>, bool, bool, u32, u32) {
    (m.id@, m.alive, m.female, m.home_market, m.work_market)
}

/// The views of members.
pub open spec fn members_view(s: Seq<PopulationMember>) -> Seq<(Seq<char>, bool, bool, u32, u32)> {
    s.map_values(|m: PopulationMember| member_view(m))
}

/// A child as id, mother's id, mother's index, birth tick and markets.
pub open spec fn child_view(c: BornChild) -> (Seq<char>, Seq<char>, int, u64, u32, u32) {
    (c.id@, c.parent@, c.mother as int, c.birth_tick, c.home_market, c.work_market)
}

/// The views of children.
pub open spec fn children_view(s: Seq<BornChild>) -> Seq<(Seq<char>, Seq<char>, int, u64, u32, u32)> {
    s.map_values(|c: BornChild| child_view(c))
}

/// The number of the first `n` members that are alive.
pub open spec fn alive_count(members: Seq<PopulationMember>, n: int) -> nat
    decreases n,
{
    if n <= 0 {
        0
    } else {
        alive_count(members, n - 1) + (if members[n - 1].alive { 1nat } else { 0nat })
    }
}

/// The ids of the agents among the first `n` members that die this month:
/// the live ones whose draw says so, in member order.
pub open spec fn deaths_spec(members: Seq<PopulationMember>, dies: Seq<bool>, n: int) -> Seq<Seq<char>>
    decreases n,
{
    if n <= 0 {
        Seq::empty()
    } else {
        deaths_spec(members, dies, n - 1) + (if members[n - 1].alive && dies[n - 1] {
            seq![members[n - 1].id@]
        } else {
            Seq::empty()
        })
    }
}

/// The members after this month's deaths: the same agents, those that die
/// no longer alive.
pub open spec fn after_deaths(members: Seq<PopulationMember>, dies: Seq<bool>) -> Seq<(Seq<char>, bool, bool, u32, u32)> {
    Seq::new(members.len(), |i: int| (members[i].id@, members[i].alive && !dies[i], members[i].female, members[i].home_market, members[i].work_market))
}

/// The children the first `n` members give birth to in month `month` at
/// tick `tick`: one for each live female member whose draw says so, in
/// member order, named `agent:born:<mother>:<month>` after her, with her
/// markets.
pub open spec fn births_spec(members: Seq<PopulationMember>, gives_birth: Seq<bool>, month: u64, tick: u64, n: int)
    -> Seq<(Seq<char>, Seq<char>, int, u64, u32, u32)>
    decreases n,
{
    if n <= 0 {
        Seq::empty()
    } else {
        let m = members[n - 1];
        births_spec(members, gives_birth, month, tick, n - 1) + (if m.alive && m.female && gives_birth[n - 1] {
            seq![(born_id(m.id@, month as nat), m.id@, n - 1, tick, m.home_market, m.work_market)]
        } else {
            Seq::empty()
        })
    }
}

/// Whether a month with `live` agents is below the capacity bound (none
/// when the population is not regulated).
pub open spec fn below_capacity(live: nat, capacity: Option<u64>) -> bool {
    match capacity {
        Some(c) => live < c,
        None => true,
    }
}

/// The months a pass catches up on: those after `last` up to `current`.
pub open spec fn months_due(last: u64, current: u64) -> Seq<u64> {
    if current <= last {
        Seq::empty()
    } else {
        Seq::new((current - last) as nat, |k: int| (last + 1 + k) as u64)
    }
}

/// The months after `last` up to `current`, in order; none when `current`
/// is not after `last`. A pass then records `current` as processed.
pub fn months_to_process(last: u64, current: u64) -> (r: Vec<u64>)
    ensures
        r@ == months_due(last, current),
{
    let mut out: Vec<u64> = Vec::new();
    if current <= last {
        assert(out@ =~= months_due(last, current));
        return out;
    }
    let mut m: u64 = last;
    while m < current
        invariant
            last < current,
            last <= m <= current,
            out@ =~= Seq::new((m - last) as nat, |k: int| (last + 1 + k) as u64),
        decreases current - m,
    {
        m = m + 1;
        out.push(m);
    }
    assert(out@ =~= months_due(last, current));
    out
}

/// One catch-up pass of the population step over the agents alive at its
/// start, and the number of children born so far in it.
#[derive(Debug)]
pub struct PopulationPass {
    pub members: Vec<PopulationMember>,
    pub born: u64,
}

impl PopulationPass {
    /// A pass over `members`, no child born yet.
    pub fn new(members: Vec<PopulationMember>) -> (r: Self)
        ensures
            r.members@ == members@,
            r.born == 0,
    {
        PopulationPass { members, born: 0 }
    }

    /// The live agents: the members still alive and the children born so
    /// far.
    pub open spec fn live(&self) -> nat {
        alive_count(self.members@, self.members@.len() as int) + self.born as nat
    }

    /// The number of live agents (see `live`).
    pub fn live_count(&self) -> (r: u64)
        requires
            self.born + self.members@.len() <= u64::MAX,
        ensures
            r == self.live(),
    {
        let n = self.members.len();
        let mut count: u64 = 0;
        let mut i: usize = 0;
        while i < n
            invariant
                n == self.members@.len(),
                i <= n,
                count == alive_count(self.members@, i as int),
                count <= i,
            decreases n - i,
        {
            if self.members[i].alive {
                count = count + 1;
            }
            i = i + 1;
        }
        count + self.born
    }

    /// This month's deaths: every live member whose draw (`dies[i]`) says
    /// it dies is no longer alive; their ids are returned in member order.
    pub fn deaths(&mut self, dies: &Vec<bool>) -> (r: Vec<AgentId>)
        requires
            dies@.len() == old(self).members@.len(),
        ensures
            final(self).born == old(self).born,
            members_view(final(self).members@) == after_deaths(old(self).members@, dies@),
            queue_view(r@) == deaths_spec(old(self).members@, dies@, old(self).members@.len() as int),
    {
        let ghost m0 = self.members@;
        let n = self.members.len();
        let mut out: Vec<AgentId> = Vec::new();
        let mut i: usize = 0;
        while i < n
            invariant
                n == m0.len(),
                n == dies@.len(),
                i <= n,
                self.members@.len() == n,
                forall|j: int| 0 <= j < i ==> #[trigger] member_view(self.members@[j]) == after_deaths(m0, dies@)[j],
                forall|j: int| i <= j < n ==> #[trigger] self.members@[j] == m0[j],
                queue_view(out@) == deaths_spec(m0, dies@, i as int),
                self.born == old(self).born,
            decreases n - i,
        {
            let m = &self.members[i];
            if m.alive && dies[i] {
                let id = m.id.copy_id();
                let gone = PopulationMember {
                    id: m.id.copy_id(),
                    alive: false,
                    female: m.female,
                    home_market: m.home_market,
                    work_market: m.work_market,
                };
                let ghost before = self.members@;
                let ghost ob = out@;
                self.members.set(i, gone);
                out.push(id);
                proof {
                    assert(queue_view(out@) =~= queue_view(ob).push(m0[i as int].id@));
                    assert forall|j: int| 0 <= j < n && j != i implies self.members@[j] == before[j] by {}
                }
            } else {
                proof {
                    assert(deaths_spec(m0, dies@, i + 1) =~= deaths_spec(m0, dies@, i as int));
                }
            }
            i = i + 1;
        }
        proof {
            assert(members_view(self.members@) =~= after_deaths(m0, dies@)) by {
                assert forall|j: int| 0 <= j < n implies members_view(self.members@)[j] == after_deaths(m0, dies@)[j] by {
                    assert(member_view(self.members@[j]) == after_deaths(m0, dies@)[j]);
                }
            }
        }
        out
    }

    /// This month's births, once its deaths are done: when the live count
    /// is below `capacity` (see `below_capacity`), a child for each live
    /// female member whose draw (`gives_birth[i]`) says so (see
    /// `births_spec`); none otherwise. The members stay as they were.
    pub fn births(&mut self, month: u64, tick: u64, gives_birth: &Vec<bool>, capacity: Option<u64>) -> (r: Vec<BornChild>)
        requires
            gives_birth@.len() == old(self).members@.len(),
            old(self).born + 2 * old(self).members@.len() <= u64::MAX,
        ensures
            final(self).members@ == old(self).members@,
            final(self).born == old(self).born + r@.len(),
            below_capacity(old(self).live(), capacity) ==>
                children_view(r@) == births_spec(old(self).members@, gives_birth@, month, tick, old(self).members@.len() as int),
            !below_capacity(old(self).live(), capacity) ==> r@.len() == 0,
    {
        let live = self.live_count();
        let below = match capacity {
            Some(c) => live < c,
            None => true,
        };
        let mut out: Vec<BornChild> = Vec::new();
        if !below {
            return out;
        }
        let n = self.members.len();
        let mut i: usize = 0;
        while i < n
            invariant
                n == self.members@.len(),
                n == gives_birth@.len(),
                i <= n,
                out@.len() <= i,
                children_view(out@) == births_spec(self.members@, gives_birth@, month, tick, i as int),
            decreases n - i,
        {
            let m = &self.members[i];
            let ghost oc = out@;
            if m.alive && m.female && gives_birth[i] {
                let child = BornChild {
                    id: born_agent_id(&m.id, month),
                    parent: m.id.copy_id(),
                    mother: i,
                    birth_tick: tick,
                    home_market: m.home_market,
                    work_market: m.work_market,
                };
                out.push(child);
                proof {
                    assert(children_view(out@) =~= children_view(oc).push(child_view(child)));
                }
            } else {
                proof {
                    assert(births_spec(self.members@, gives_birth@, month, tick, i + 1)
                        =~= births_spec(self.members@, gives_birth@, month, tick, i as int));
                }
            }
            i = i + 1;
        }
        self.born = self.born + out.len() as u64;
        out
    }
}

/// Children born in one month have distinct ids when their mothers do.
pub proof fn lemma_children_distinct(members: Seq<PopulationMember>, gives_birth: Seq<bool>, month: u64, tick: u64)
    requires
        forall|i: int, j: int| 0 <= i < j < members.len() ==> #[trigger] members[i].id@ != #[trigger] members[j].id@,
    ensures
        forall|a: int, b: int| 0 <= a < b < births_spec(members, gives_birth, month, tick, members.len() as int).len() ==>
            #[trigger] births_spec(members, gives_birth, month, tick, members.len() as int)[a].0
                != #[trigger] births_spec(members, gives_birth, month, tick, members.len() as int)[b].0,
{
    lemma_births_mothers(members, gives_birth, month, tick, members.len() as int);
    let s = births_spec(members, gives_birth, month, tick, members.len() as int);
    assert forall|a: int, b: int| 0 <= a < b < s.len() implies #[trigger] s[a].0 != #[trigger] s[b].0 by {
        let i = s[a].2;
        let j = s[b].2;
        if s[a].0 == s[b].0 {
            lemma_born_id_injective(members[i].id@, members[j].id@, month as nat);
        }
    }
}

/// Each child of the first `n` members stands for a distinct member, in
/// increasing member order, and carries that member's id.
proof fn lemma_births_mothers(members: Seq<PopulationMember>, gives_birth: Seq<bool>, month: u64, tick: u64, n: int)
    requires
        0 <= n <= members.len(),
    ensures
        forall|a: int| 0 <= a < births_spec(members, gives_birth, month, tick, n).len() ==> {
            let c = #[trigger] births_spec(members, gives_birth, month, tick, n)[a];
            &&& 0 <= c.2 < n
            &&& c.0 == born_id(members[c.2].id@, month as nat)
        },
        forall|a: int, b: int| 0 <= a < b < births_spec(members, gives_birth, month, tick, n).len() ==>
            (#[trigger] births_spec(members, gives_birth, month, tick, n)[a]).2 < (#[trigger] births_spec(members, gives_birth, month, tick, n)[b]).2,
    decreases n,
{
    if n > 0 {
        lemma_births_mothers(members, gives_birth, month, tick, n - 1);
        let prev = births_spec(members, gives_birth, month, tick, n - 1);
        let s = births_spec(members, gives_birth, month, tick, n);
        assert forall|a: int| 0 <= a < s.len() implies ({
            let c = #[trigger] s[a];
            &&& 0 <= c.2 < n
            &&& c.0 == born_id(members[c.2].id@, month as nat)
        }) by {
            if a < prev.len() {
                assert(s[a] == prev[a]);
            }
        }
        assert forall|a: int, b: int| 0 <= a < b < s.len() implies (#[trigger] s[a]).2 < (#[trigger] s[b]).2 by {
            assert(s[a] == prev[a]);
            if b < prev.len() {
                assert(s[b] == prev[b]);
            }
        }
    }
}

/// Different mothers name different children in the same month.
proof fn lemma_born_id_injective(a: Seq<char>, b: Seq<char>, month: nat)
    requires
        born_id(a, month) == born_id(b, month),
    ensures
        a == b,
{
    let p = seq!['a', 'g', 'e', 'n', 't', ':', 'b', 'o', 'r', 'n', ':'];
    let tail = seq![':'] + crate::text::decimal(month);
    let x = p + a + tail;
    let y = p + b + tail;
    assert(born_id(a, month) =~= x);
    assert(born_id(b, month) =~= y);
    assert(x.len() == y.len());
    assert forall|k: int| 0 <= k < a.len() implies a[k] == b[k] by {
        assert(x[p.len() + k] == y[p.len() + k]);
    }
    assert(a =~= b);
}

} // verus!
