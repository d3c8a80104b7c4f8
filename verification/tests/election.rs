use raft_buddies::{
    Channel, RaftBuddy, RaftChannel, RaftId, RaftMessage, RaftMessageBody, Role, Topology,
};

fn default_topology() -> Topology {
    Topology::from_iter(vec![
        (RaftId(0), RaftChannel::default()),
        (RaftId(1), RaftChannel::default()),
        (RaftId(2), RaftChannel::default()),
        (RaftId(3), RaftChannel::default()),
        (RaftId(4), RaftChannel::default()),
    ])
}

fn request_from_zero() -> RaftMessage {
    RaftMessage::RequestVote(RaftMessageBody {
        id: RaftId(0),
        current_term: 0,
        log_length: 1,
    })
}

#[test]
fn test_init_servers() {
    let buddies: Vec<RaftBuddy> = (&default_topology()).into();

    assert!(buddies.len() == 5)
}

#[test]
fn test_buddies_run_out_of_patience() {
    let mut topology = default_topology();
    let mut buddy = RaftBuddy {
        role: Role::Follower,
        id: RaftId(0),
        timer: 1.into(),
        ..Default::default()
    };

    buddy.tick(&mut topology);

    assert!(buddy.timer.ticks_left == 0);
}

#[test]
fn test_buddies_run_out_of_patience_then_restart() {
    let mut topology = default_topology();
    let mut buddy = RaftBuddy {
        role: Role::Follower,
        id: RaftId(0),
        timer: 1.into(),
        ..Default::default()
    };

    buddy.tick(&mut topology);
    buddy.tick(&mut topology);

    assert!(buddy.timer.ticks_left == 1);
}

#[test]
fn test_a_candidate_arises() {
    let mut topology = default_topology();
    let mut buddies: Vec<RaftBuddy> = (&topology).into();

    for _tick in 0..100 {
        for buddy in buddies.iter_mut() {
            buddy.tick(&mut topology);
        }
    }

    let buddy = buddies.first().unwrap();

    assert_eq!(buddy.role, Role::Candidate);
    assert!(buddies[1..].iter().all(|b| b.role == Role::Follower));
}

#[test]
fn test_the_candidate_sends_messages_to_other_buddies() {
    let mut topology = default_topology();
    let mut buddies: Vec<RaftBuddy> = (&topology).into();
    let (candidate, _followers) = buddies.split_first_mut().unwrap();

    for _tick in 1..=100 {
        candidate.tick(&mut topology)
    }

    let mut messages: Vec<Option<RaftMessage>> = Vec::new();
    for slot in 0..topology.len() {
        messages.push(topology.channel_mut(slot).pop());
    }

    assert_eq!(
        messages,
        [
            None,
            Some(RaftMessage::RequestVote(RaftMessageBody {
                id: RaftId(0),
                current_term: 0,
                log_length: 1
            })),
            Some(RaftMessage::RequestVote(RaftMessageBody {
                id: RaftId(0),
                current_term: 0,
                log_length: 1
            })),
            Some(RaftMessage::RequestVote(RaftMessageBody {
                id: RaftId(0),
                current_term: 0,
                log_length: 1
            })),
            Some(RaftMessage::RequestVote(RaftMessageBody {
                id: RaftId(0),
                current_term: 0,
                log_length: 1
            })),
        ]
    )
}

#[test]
fn test_peers_respond_to_solicitation() {
    let mut topology = default_topology();
    let mut buddies: Vec<RaftBuddy> = (&topology).into();
    let (_candidate, followers) = buddies.split_first_mut().unwrap();

    for follower in followers.iter_mut() {
        follower
            .get_channel(&mut topology, follower.id)
            .push(RaftMessage::RequestVote(RaftMessageBody {
                id: RaftId(0),
                current_term: 0,
                log_length: 1,
            }));

        follower.tick(&mut topology)
    }

    let mut messages: Vec<Vec<RaftMessage>> = Vec::new();
    for slot in 0..topology.len() {
        messages.push(topology.channel(slot).all_messages());
    }

    assert_eq!(
        messages,
        [
            vec![
                RaftMessage::VoteForCandidate(RaftMessageBody {
                    id: 1.into(),
                    current_term: 0,
                    log_length: 1
                }),
                RaftMessage::VoteForCandidate(RaftMessageBody {
                    id: 2.into(),
                    current_term: 0,
                    log_length: 1
                }),
                RaftMessage::VoteForCandidate(RaftMessageBody {
                    id: 3.into(),
                    current_term: 0,
                    log_length: 1
                }),
                RaftMessage::VoteForCandidate(RaftMessageBody {
                    id: 4.into(),
                    current_term: 0,
                    log_length: 1
                })
            ],
            vec![],
            vec![],
            vec![],
            vec![]
        ]
    )
}

#[test]
fn test_candidate_becomes_leader() {
    let mut topology = default_topology();
    let mut buddies: Vec<RaftBuddy> = (&topology).into();
    let (candidate, followers) = buddies.split_first_mut().unwrap();

    candidate.timer.ticks_left = 1;
    candidate.tick(&mut topology);

    for follower in followers.iter_mut() {
        follower.tick(&mut topology)
    }

    candidate.tick(&mut topology);

    assert_eq!(candidate.role, Role::Leader);
}

#[test]
fn test_without_majority_candidate_does_not_become_leader() {
    let mut topology = default_topology();
    let mut buddies: Vec<RaftBuddy> = (&topology).into();
    let (candidate, followers) = buddies.split_first_mut().unwrap();

    candidate.timer.ticks_left = 1;
    candidate.tick(&mut topology);

    for follower in followers[0..2].iter_mut() {
        follower.tick(&mut topology)
    }

    candidate.tick(&mut topology);

    assert_eq!(candidate.role, Role::Candidate);
}

#[test]
fn test_with_bare_majority_candidate_does_become_leader() {
    let mut topology = default_topology();
    let mut buddies: Vec<RaftBuddy> = (&topology).into();
    let (candidate, followers) = buddies.split_first_mut().unwrap();

    candidate.timer.ticks_left = 1;
    candidate.tick(&mut topology);

    for follower in followers[0..3].iter_mut() {
        follower.tick(&mut topology)
    }

    candidate.tick(&mut topology);

    assert_eq!(candidate.role, Role::Leader);
}

#[test]
fn equal_terms_and_logs_grant_the_vote() {
    let mut topology = default_topology();
    let mut follower = RaftBuddy {
        id: RaftId(3),
        ..Default::default()
    };
    topology.channel_mut(3).push(request_from_zero());

    follower.tick(&mut topology);

    assert_eq!(
        topology.channel(0).all_messages(),
        vec![RaftMessage::VoteForCandidate(RaftMessageBody {
            id: RaftId(3),
            current_term: 0,
            log_length: 1
        })]
    );
    assert_eq!(follower.role, Role::Follower);
    assert!(topology.channel(3).all_messages().is_empty());
}

#[test]
fn a_node_behind_the_requester_refuses() {
    let mut topology = default_topology();
    let mut follower = RaftBuddy {
        id: RaftId(2),
        ..Default::default()
    };
    let later_term = RaftMessage::RequestVote(RaftMessageBody {
        id: RaftId(1),
        current_term: 1,
        log_length: 0,
    });
    let longer_log = RaftMessage::RequestVote(RaftMessageBody {
        id: RaftId(4),
        current_term: 0,
        log_length: 2,
    });
    topology.channel_mut(2).push(later_term);
    topology.channel_mut(2).push(longer_log);

    follower.process_inbox(&mut topology);

    let refusal = RaftMessage::RejectCandidateVote(RaftMessageBody {
        id: RaftId(2),
        current_term: 0,
        log_length: 1,
    });
    assert_eq!(topology.channel(1).all_messages(), vec![refusal]);
    assert_eq!(topology.channel(4).all_messages(), vec![refusal]);
}

#[test]
fn a_node_ahead_of_the_requester_grants() {
    let mut topology = default_topology();
    let mut follower = RaftBuddy {
        id: RaftId(2),
        current_term: 5,
        ..Default::default()
    };
    topology.channel_mut(2).push(request_from_zero());

    follower.process_inbox(&mut topology);

    assert_eq!(
        topology.channel(0).all_messages(),
        vec![RaftMessage::VoteForCandidate(RaftMessageBody {
            id: RaftId(2),
            current_term: 5,
            log_length: 1
        })]
    );
}

#[test]
fn a_second_vote_from_one_voter_is_not_counted() {
    let mut topology = default_topology();
    let mut candidate = RaftBuddy {
        role: Role::Candidate,
        ..Default::default()
    };
    let first = RaftMessage::VoteForCandidate(RaftMessageBody {
        id: RaftId(1),
        current_term: 0,
        log_length: 1,
    });
    let second = RaftMessage::VoteForCandidate(RaftMessageBody {
        id: RaftId(1),
        current_term: 0,
        log_length: 7,
    });
    for vote in [first, second, second] {
        candidate.receive(&mut topology, vote);
    }

    assert_eq!(candidate.role, Role::Candidate);
    assert_eq!(candidate.votes_received.len(), 1);
    assert_eq!(candidate.votes_received.get(&1), Some(&first));
    assert!(!candidate.received_majority_votes(&topology));
}

#[test]
fn a_follower_does_not_count_votes() {
    let mut topology = default_topology();
    let mut follower = RaftBuddy::default();
    for voter in 1..5 {
        follower.receive(
            &mut topology,
            RaftMessage::VoteForCandidate(RaftMessageBody {
                id: RaftId(voter),
                current_term: 0,
                log_length: 1,
            }),
        );
    }

    assert_eq!(follower.role, Role::Follower);
    assert!(follower.votes_received.is_empty());
}

#[test]
fn the_third_granted_vote_of_five_makes_the_leader() {
    let mut topology = default_topology();
    let mut candidate = RaftBuddy {
        role: Role::Candidate,
        ..Default::default()
    };
    for voter in 1..=2 {
        candidate.receive(
            &mut topology,
            RaftMessage::VoteForCandidate(RaftMessageBody {
                id: RaftId(voter),
                current_term: 0,
                log_length: 1,
            }),
        );
    }
    assert!(!candidate.received_majority_votes(&topology));
    assert!(candidate.is_candidate());

    candidate.receive(
        &mut topology,
        RaftMessage::VoteForCandidate(RaftMessageBody {
            id: RaftId(3),
            current_term: 0,
            log_length: 1,
        }),
    );

    assert!(candidate.received_majority_votes(&topology));
    assert!(candidate.is_leader());
}

#[test]
fn a_refusal_from_a_later_term_makes_a_follower() {
    let mut topology = default_topology();
    let mut candidate = RaftBuddy {
        role: Role::Candidate,
        current_term: 2,
        ..Default::default()
    };

    candidate.receive(
        &mut topology,
        RaftMessage::RejectCandidateVote(RaftMessageBody {
            id: RaftId(1),
            current_term: 2,
            log_length: 9,
        }),
    );
    assert_eq!(candidate.role, Role::Candidate);
    assert_eq!(candidate.current_term, 2);

    candidate.receive(
        &mut topology,
        RaftMessage::RejectCandidateVote(RaftMessageBody {
            id: RaftId(1),
            current_term: 3,
            log_length: 0,
        }),
    );
    assert_eq!(candidate.role, Role::Follower);
    assert_eq!(candidate.current_term, 3);
}

#[test]
fn the_most_recent_message_is_handled_first() {
    let mut topology = default_topology();
    let mut candidate = RaftBuddy {
        role: Role::Candidate,
        ..Default::default()
    };
    let inbox = topology.channel_mut(0);
    // Pushed first, so handled last: by then the node follows term 4.
    inbox.push(RaftMessage::RequestVote(RaftMessageBody {
        id: RaftId(1),
        current_term: 3,
        log_length: 1,
    }));
    inbox.push(RaftMessage::RejectCandidateVote(RaftMessageBody {
        id: RaftId(2),
        current_term: 4,
        log_length: 1,
    }));

    candidate.process_inbox(&mut topology);

    assert_eq!(candidate.role, Role::Follower);
    assert_eq!(candidate.current_term, 4);
    assert_eq!(
        topology.channel(1).all_messages(),
        vec![RaftMessage::VoteForCandidate(RaftMessageBody {
            id: RaftId(0),
            current_term: 4,
            log_length: 1
        })]
    );
    assert!(!candidate.has_messages(&topology));
}

#[test]
fn an_answer_to_oneself_waits_for_the_next_tick() {
    let mut topology = default_topology();
    let mut buddy = RaftBuddy {
        role: Role::Candidate,
        ..Default::default()
    };
    topology.channel_mut(0).push(request_from_zero());

    buddy.tick(&mut topology);

    assert_eq!(
        buddy.channel(&topology).all_messages(),
        vec![RaftMessage::VoteForCandidate(RaftMessageBody {
            id: RaftId(0),
            current_term: 0,
            log_length: 1
        })]
    );
    assert!(buddy.votes_received.is_empty());

    buddy.tick(&mut topology);

    assert!(!buddy.has_messages(&topology));
    assert_eq!(buddy.votes_received.len(), 1);
}

#[test]
fn a_leader_campaigns_again_when_its_timer_fires() {
    let mut topology = default_topology();
    let mut leader = RaftBuddy {
        role: Role::Leader,
        id: RaftId(4),
        timer: 1.into(),
        current_term: 6,
        ..Default::default()
    };

    leader.tick(&mut topology);

    assert_eq!(leader.role, Role::Candidate);
    assert_eq!(leader.current_term, 6);
    let request = RaftMessage::RequestVote(RaftMessageBody {
        id: RaftId(4),
        current_term: 6,
        log_length: 1,
    });
    for slot in 0..4 {
        assert_eq!(topology.channel(slot).all_messages(), vec![request]);
    }
    assert!(topology.channel(4).all_messages().is_empty());
}

#[test]
fn nodes_start_with_staggered_timers() {
    let topology = Topology::from_iter(vec![
        (RaftId(9), RaftChannel::default()),
        (RaftId(2), RaftChannel::default()),
        (RaftId(5), RaftChannel::default()),
    ]);
    let buddies = Vec::<RaftBuddy>::from(&topology);

    let ids: Vec<usize> = buddies.iter().map(|buddy| buddy.id.0).collect();
    let timeouts: Vec<usize> = buddies.iter().map(|buddy| buddy.timer.default_timeout).collect();
    let left: Vec<usize> = buddies.iter().map(|buddy| buddy.timer.ticks_left).collect();
    assert_eq!(ids, [2, 5, 9]);
    assert_eq!(timeouts, [100, 110, 120]);
    assert_eq!(left, [100, 110, 120]);
    assert!(buddies.iter().all(|buddy| buddy.role == Role::Follower
        && buddy.current_term == 0
        && buddy.log.len() == 1
        && buddy.votes_received.is_empty()));
}

#[test]
fn follower_channels_skips_the_own_mailbox() {
    let topology = default_topology();
    let buddy = RaftBuddy {
        id: RaftId(2),
        ..Default::default()
    };

    assert_eq!(buddy.follower_channels(&topology), [0, 1, 3, 4]);
}

#[test]
fn roles_change_on_request() {
    let mut buddy = RaftBuddy::default();
    assert!(!buddy.is_candidate() && !buddy.is_leader());
    buddy.become_candidate();
    assert!(buddy.is_candidate() && !buddy.is_leader());
    buddy.become_leader();
    assert!(buddy.is_leader() && !buddy.is_candidate());
}

#[test]
fn the_node_with_the_smallest_timeout_is_the_first_candidate() {
    let mut topology = Topology::from_iter(vec![
        (RaftId(10), RaftChannel::default()),
        (RaftId(20), RaftChannel::default()),
        (RaftId(30), RaftChannel::default()),
    ]);
    let mut buddies: Vec<RaftBuddy> = (&topology).into();
    for (buddy, timeout) in buddies.iter_mut().zip([5, 3, 9]) {
        buddy.timer = timeout.into();
    }

    for _round in 0..2 {
        for buddy in buddies.iter_mut() {
            buddy.tick(&mut topology);
        }
        assert!(buddies.iter().all(|buddy| buddy.role == Role::Follower));
    }
    for buddy in buddies.iter_mut() {
        buddy.tick(&mut topology);
    }

    let roles: Vec<Role> = buddies.iter().map(|buddy| buddy.role).collect();
    assert_eq!(roles, [Role::Follower, Role::Candidate, Role::Follower]);
    let left: Vec<usize> = buddies.iter().map(|buddy| buddy.timer.ticks_left).collect();
    assert_eq!(left, [2, 0, 6]);
}

#[test]
fn the_default_node_is_a_follower_named_zero() {
    let buddy = RaftBuddy::default();

    assert_eq!(buddy.role, Role::Follower);
    assert_eq!(buddy.id, RaftId(0));
    assert_eq!((buddy.timer.default_timeout, buddy.timer.ticks_left), (100, 100));
    assert_eq!(buddy.current_term, 0);
    assert_eq!(buddy.log.len(), 1);
    assert!(buddy.votes_received.is_empty());
    assert_eq!(
        buddy.body(),
        RaftMessageBody {
            id: RaftId(0),
            current_term: 0,
            log_length: 1
        }
    );
}
