use sim_core::ids::AgentId;
use sim_core::population::{months_to_process, PopulationMember, PopulationPass};

fn member(id: &str, alive: bool, female: bool, home: u32, work: u32) -> PopulationMember {
    PopulationMember { id: AgentId(id.into()), alive, female, home_market: home, work_market: work }
}

#[test]
fn a_pass_catches_up_on_the_months_after_the_last_processed_one() {
    assert_eq!(months_to_process(3, 3), Vec::<u64>::new());
    assert_eq!(months_to_process(5, 3), Vec::<u64>::new());
    assert_eq!(months_to_process(3, 5), vec![4, 5]);
}

#[test]
fn deaths_then_births_follow_the_draws_of_the_live_agents() {
    let mut pass = PopulationPass::new(vec![
        member("agent:a", true, true, 9001, 9002),
        member("agent:b", true, false, 0, 0),
        member("agent:c", true, true, 0, 0),
        member("agent:d", false, true, 0, 0),
        member("agent:e", true, true, 9003, 9003),
    ]);
    // The dead agent d cannot die again; e dies this month.
    let dead = pass.deaths(&vec![false, false, false, true, true]);
    assert_eq!(dead, vec![AgentId("agent:e".into())]);
    assert!(!pass.members[4].alive);
    assert!(pass.members[0].alive);
    assert_eq!(pass.live_count(), 3);
    // Only live females bear children; b is male, d and e are dead.
    let born = pass.births(7, 100, &vec![true, true, true, true, true], None);
    assert_eq!(born.len(), 2);
    assert_eq!(born[0].id, AgentId("agent:born:agent:a:7".into()));
    assert_eq!(born[0].parent, AgentId("agent:a".into()));
    assert_eq!(born[0].mother, 0);
    assert_eq!(born[0].birth_tick, 100);
    assert_eq!((born[0].home_market, born[0].work_market), (9001, 9002));
    assert_eq!(born[1].id, AgentId("agent:born:agent:c:7".into()));
    assert_eq!((born[1].home_market, born[1].work_market), (0, 0));
    assert_eq!(pass.born, 2);
    assert_eq!(pass.live_count(), 5);
}

#[test]
fn no_child_is_born_once_the_live_count_reaches_capacity() {
    let mut pass = PopulationPass::new(vec![member("agent:a", true, true, 0, 0), member("agent:c", true, true, 0, 0)]);
    assert!(pass.births(1, 10, &vec![true, true], Some(2)).is_empty());
    assert_eq!(pass.births(1, 10, &vec![true, false], Some(3)).len(), 1);
    assert_eq!(pass.born, 1);
}
