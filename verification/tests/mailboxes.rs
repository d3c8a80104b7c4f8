use raft_buddies::{
    Channel, RaftChannel, RaftId, RaftMessage, RaftMessageBody, RaftTimer, Temporal, Topology,
};

fn vote(from: usize) -> RaftMessage {
    RaftMessage::VoteForCandidate(RaftMessageBody {
        id: RaftId(from),
        current_term: 0,
        log_length: 1,
    })
}

fn mailbox(messages: &[RaftMessage]) -> RaftChannel {
    RaftChannel {
        queue: messages.to_vec(),
    }
}

#[test]
fn a_timer_of_one_fires_at_the_first_tick_and_rearms_at_the_second() {
    let mut timer: RaftTimer = 1.into();
    assert_eq!((timer.default_timeout, timer.ticks_left), (1, 1));

    timer.tick();
    assert_eq!(timer.ticks_left, 0);

    timer.tick();
    assert_eq!(timer.ticks_left, 1);
}

#[test]
fn a_timer_fires_every_timeout_plus_one_ticks() {
    let mut timer = RaftTimer::from(3);
    let mut seen = Vec::new();
    for _ in 0..9 {
        timer.tick();
        seen.push(timer.ticks_left);
    }

    assert_eq!(seen, [2, 1, 0, 3, 2, 1, 0, 3, 2]);
    assert_eq!(timer.default_timeout, 3);
}

#[test]
fn a_timer_of_zero_reads_zero_after_every_tick() {
    let mut timer = RaftTimer::from(0);
    timer.tick();
    assert_eq!(timer.ticks_left, 0);
    timer.tick();
    assert_eq!(timer.ticks_left, 0);
}

#[test]
fn an_identifier_is_its_number() {
    let id: RaftId = 7.into();
    assert_eq!(id, RaftId(7));
    assert_eq!(*id, 7);
    assert!(RaftId(2) < RaftId(10));
}

#[test]
fn a_channel_pops_the_most_recent_message_first() {
    let mut channel = RaftChannel::default();
    assert_eq!(channel.pop(), None);

    channel.push(vote(1));
    channel.push(vote(2));
    channel.push(vote(3));

    assert_eq!(channel.all_messages(), vec![vote(1), vote(2), vote(3)]);
    assert_eq!(channel.pop(), Some(vote(3)));
    assert_eq!(channel.pop(), Some(vote(2)));
    assert_eq!(channel.all_messages(), vec![vote(1)]);
    assert_eq!(channel.pop(), Some(vote(1)));
    assert_eq!(channel.pop(), None);
    assert!(channel.all_messages().is_empty());
}

#[test]
fn a_channel_clone_holds_the_same_messages() {
    let channel = mailbox(&[vote(1), vote(2)]);
    let mut copy = channel.clone();
    assert!(copy == channel);

    copy.push(vote(3));
    assert_eq!(channel.all_messages(), vec![vote(1), vote(2)]);
}

#[test]
fn a_topology_lists_its_members_from_the_lowest_identifier() {
    let topology = Topology::from_iter(vec![
        (RaftId(30), mailbox(&[vote(3)])),
        (RaftId(10), mailbox(&[vote(1)])),
        (RaftId(20), mailbox(&[])),
    ]);

    assert_eq!(topology.len(), 3);
    assert_eq!(topology.ids(), vec![RaftId(10), RaftId(20), RaftId(30)]);
    assert_eq!(topology.id_at(1), RaftId(20));
    assert_eq!(topology.channel(0).all_messages(), vec![vote(1)]);
    assert!(topology.channel(1).all_messages().is_empty());
    assert_eq!(topology.channel(2).all_messages(), vec![vote(3)]);
}

#[test]
fn a_topology_keeps_the_mailbox_given_last_for_an_identifier() {
    let topology = Topology::from_iter(vec![
        (RaftId(1), mailbox(&[vote(1)])),
        (RaftId(0), mailbox(&[])),
        (RaftId(1), mailbox(&[vote(2)])),
        (RaftId(1), mailbox(&[vote(3), vote(4)])),
    ]);

    assert_eq!(topology.ids(), vec![RaftId(0), RaftId(1)]);
    assert_eq!(
        topology.channel(1).all_messages(),
        vec![vote(3), vote(4)]
    );
}

#[test]
fn a_topology_finds_members_by_identifier() {
    let topology = Topology::from_iter(vec![
        (RaftId(4), RaftChannel::default()),
        (RaftId(8), RaftChannel::default()),
    ]);

    assert_eq!(topology.slot_of(RaftId(4)), Some(0));
    assert_eq!(topology.slot_of(RaftId(8)), Some(1));
    assert_eq!(topology.slot_of(RaftId(0)), None);
    assert_eq!(topology.slot_of(RaftId(6)), None);
    assert_eq!(topology.slot_of(RaftId(9)), None);

    let empty = Topology::from_iter(Vec::new());
    assert_eq!(empty.len(), 0);
    assert_eq!(empty.slot_of(RaftId(0)), None);
}

#[test]
fn a_push_reaches_one_mailbox_only() {
    let mut topology = Topology::from_iter(vec![
        (RaftId(0), RaftChannel::default()),
        (RaftId(1), RaftChannel::default()),
    ]);

    topology.channel_mut(1).push(vote(0));

    assert!(topology.channel(0).all_messages().is_empty());
    assert_eq!(topology.channel(1).all_messages(), vec![vote(0)]);
    assert_eq!(topology.ids(), vec![RaftId(0), RaftId(1)]);
}
