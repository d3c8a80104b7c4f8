use vstd::prelude::*;

use crate::raft_channel::RaftChannel;
use crate::raft_id::RaftId;
use crate::raft_message::RaftMessage;

verus! {

/// A member of a topology as contracts see it: its identifier and the
/// messages that wait in its mailbox, oldest first.
pub ghost struct Member {
    pub id: RaftId,
    pub inbox: Seq<RaftMessage>,
}

/// Whether the members stand from the lowest identifier upward, each
/// identifier once.
pub open spec fn ordered(members: Seq<Member>) -> bool {
    forall|i: int, j: int|
        0 <= i < j < members.len() ==> (#[trigger] members[i]).id.0 < (#[trigger] members[j]).id.0
}

/// Whether `id` names a member.
pub open spec fn has_member(members: Seq<Member>, id: RaftId) -> bool {
    exists|i: int| 0 <= i < members.len() && (#[trigger] members[i]).id == id
}

/// The position of the member named `id`.
pub open spec fn slot_of(members: Seq<Member>, id: RaftId) -> int {
    choose|i: int| 0 <= i < members.len() && (#[trigger] members[i]).id == id
}

/// The messages that wait for the member named `id`.
pub open spec fn inbox_of(members: Seq<Member>, id: RaftId) -> Seq<RaftMessage> {
    members[slot_of(members, id)].inbox
}

/// The members after `message` has been put into the mailbox of `to`.
pub open spec fn delivered(members: Seq<Member>, to: RaftId, message: RaftMessage) -> Seq<Member> {
    members.map_values(
        |member: Member|
            if member.id == to {
                Member { id: member.id, inbox: member.inbox.push(message) }
            } else {
                member
            },
    )
}

/// The members after the mailbox of `id` has been emptied.
pub open spec fn emptied(members: Seq<Member>, id: RaftId) -> Seq<Member> {
    members.map_values(
        |member: Member|
            if member.id == id {
                Member { id: member.id, inbox: Seq::empty() }
            } else {
                member
            },
    )
}

/// The members after `message` has been put into every mailbox but that of
/// `from`.
pub open spec fn solicited(members: Seq<Member>, from: RaftId, message: RaftMessage) -> Seq<Member> {
    members.map_values(
        |member: Member|
            if member.id == from {
                member
            } else {
                Member { id: member.id, inbox: member.inbox.push(message) }
            },
    )
}

/// In an ordered membership an identifier stands at one position only.
pub proof fn lemma_slot_is_unique(members: Seq<Member>, i: int, j: int)
    requires
        ordered(members),
        0 <= i < members.len(),
        0 <= j < members.len(),
        members[i].id == members[j].id,
    ensures
        i == j,
{
    if i < j {
        assert(members[i].id.0 < members[j].id.0);
    } else if j < i {
        assert(members[j].id.0 < members[i].id.0);
    }
}

/// In an ordered membership the slot of the identifier found at position `i`
/// is `i`.
pub proof fn lemma_slot_of_member(members: Seq<Member>, i: int)
    requires
        ordered(members),
        0 <= i < members.len(),
    ensures
        has_member(members, members[i].id),
        slot_of(members, members[i].id) == i,
        inbox_of(members, members[i].id) == members[i].inbox,
{
    let found = slot_of(members, members[i].id);
    lemma_slot_is_unique(members, i, found);
}

/// Whether two memberships name the same members at the same positions.
pub open spec fn same_members(before: Seq<Member>, after: Seq<Member>) -> bool {
    &&& before.len() == after.len()
    &&& forall|i: int| 0 <= i < before.len() ==> (#[trigger] before[i]).id == after[i].id
}

/// Memberships that name the same members are ordered alike, contain the same
/// identifiers, and find each of them at the same position.
pub proof fn lemma_same_members(before: Seq<Member>, after: Seq<Member>)
    requires
        same_members(before, after),
    ensures
        ordered(before) <==> ordered(after),
        forall|id: RaftId| has_member(before, id) <==> has_member(after, id),
        ordered(before) ==> forall|id: RaftId|
            has_member(before, id) ==> #[trigger] slot_of(after, id) == slot_of(before, id),
{
    assert forall|i: int| 0 <= i < after.len() implies (#[trigger] after[i]).id == before[i].id by {
        assert(before[i].id == after[i].id);
    }
    if ordered(before) {
        assert forall|i: int, j: int| 0 <= i < j < after.len() implies (#[trigger] after[i]).id.0 < (
        #[trigger] after[j]).id.0 by {
            assert(before[i].id.0 < before[j].id.0);
        }
    }
    if ordered(after) {
        assert forall|i: int, j: int| 0 <= i < j < before.len() implies (#[trigger] before[i]).id.0
            < (#[trigger] before[j]).id.0 by {
            assert(after[i].id.0 < after[j].id.0);
        }
    }
    assert forall|id: RaftId| has_member(before, id) <==> has_member(after, id) by {
        if has_member(before, id) {
            let i = slot_of(before, id);
            assert(after[i].id == id);
        }
        if has_member(after, id) {
            let i = slot_of(after, id);
            assert(before[i].id == id);
        }
    }
    if ordered(before) {
        assert forall|id: RaftId| has_member(before, id) implies #[trigger] slot_of(after, id)
            == slot_of(before, id) by {
            let i = slot_of(before, id);
            assert(after[i].id == id);
            lemma_slot_is_unique(after, i, slot_of(after, id));
        }
    }
}

/// Two ordered memberships with the same identifiers name them at the same
/// positions: the order leaves no choice.
pub proof fn lemma_order_leaves_no_choice(one: Seq<Member>, other: Seq<Member>)
    requires
        ordered(one),
        ordered(other),
        forall|id: RaftId| has_member(one, id) <==> has_member(other, id),
    ensures
        same_members(one, other),
    decreases one.len(),
{
    if one.len() == 0 {
        if other.len() > 0 {
            assert(has_member(other, other[0].id));
        }
    } else {
        let top = one.last().id;
        let last = other.len() - 1;
        assert(has_member(one, top));
        assert(has_member(other, top));
        let j = slot_of(other, top);
        assert(other.len() > 0);
        assert(has_member(other, other[last].id));
        let k = slot_of(one, other[last].id);
        assert(other[last].id == top) by {
            if j < last {
                assert(other[j].id.0 < other[last].id.0);
            }
            if k < one.len() - 1 {
                assert(one[k].id.0 < one[one.len() - 1].id.0);
            }
        }
        let fewer = one.drop_last();
        let others = other.drop_last();
        assert forall|id: RaftId| has_member(fewer, id) implies has_member(others, id) by {
            let i = slot_of(fewer, id);
            assert(one[i].id == id);
            assert(one[i].id.0 < one[one.len() - 1].id.0);
            assert(has_member(one, id));
            let m = slot_of(other, id);
            assert(m != last);
            assert(others[m].id == id);
        }
        assert forall|id: RaftId| has_member(others, id) implies has_member(fewer, id) by {
            let i = slot_of(others, id);
            assert(other[i].id == id);
            assert(other[i].id.0 < other[last].id.0);
            assert(has_member(other, id));
            let m = slot_of(one, id);
            assert(m != one.len() - 1);
            assert(fewer[m].id == id);
        }
        assert(ordered(fewer)) by {
            assert forall|a: int, b: int| 0 <= a < b < fewer.len() implies (#[trigger] fewer[a]).id.0
                < (#[trigger] fewer[b]).id.0 by {
                assert(one[a].id.0 < one[b].id.0);
            }
        }
        assert(ordered(others)) by {
            assert forall|a: int, b: int|
                0 <= a < b < others.len() implies (#[trigger] others[a]).id.0 < (
            #[trigger] others[b]).id.0 by {
                assert(other[a].id.0 < other[b].id.0);
            }
        }
        lemma_order_leaves_no_choice(fewer, others);
        assert forall|i: int| 0 <= i < one.len() implies (#[trigger] one[i]).id == other[i].id by {
            if i < one.len() - 1 {
                assert(fewer[i].id == others[i].id);
            }
        }
    }
}

/// Neither a delivery nor a soliciting changes who the members are.
pub proof fn lemma_mail_keeps_members(members: Seq<Member>, id: RaftId, message: RaftMessage)
    ensures
        same_members(members, delivered(members, id, message)),
        same_members(members, solicited(members, id, message)),
{
}

/// Emptying a mailbox does not change who the members are.
pub proof fn lemma_emptying_keeps_members(members: Seq<Member>, id: RaftId)
    ensures
        same_members(members, emptied(members, id)),
{
}

/// In an ordered membership, pushing `message` into the mailbox at a position
/// is the delivery to the member named there.
pub proof fn lemma_push_delivers(members: Seq<Member>, slot: int, message: RaftMessage)
    requires
        ordered(members),
        0 <= slot < members.len(),
    ensures
        members.update(
            slot,
            Member { id: members[slot].id, inbox: members[slot].inbox.push(message) },
        ) == delivered(members, members[slot].id, message),
{
    let pushed = members.update(
        slot,
        Member { id: members[slot].id, inbox: members[slot].inbox.push(message) },
    );
    let sent = delivered(members, members[slot].id, message);
    assert forall|i: int| 0 <= i < members.len() implies pushed[i] == sent[i] by {
        if i != slot && members[i].id == members[slot].id {
            lemma_slot_is_unique(members, i, slot);
        }
    }
    assert(pushed =~= sent);
}

/// In an ordered membership, clearing the mailbox at a position empties the
/// mailbox of the member named there and no other.
pub proof fn lemma_clear_empties(members: Seq<Member>, slot: int)
    requires
        ordered(members),
        0 <= slot < members.len(),
    ensures
        members.update(slot, Member { id: members[slot].id, inbox: Seq::empty() }) == emptied(
            members,
            members[slot].id,
        ),
{
    let cleared = members.update(slot, Member { id: members[slot].id, inbox: Seq::empty() });
    let gone = emptied(members, members[slot].id);
    assert forall|i: int| 0 <= i < members.len() implies cleared[i] == gone[i] by {
        if i != slot && members[i].id == members[slot].id {
            lemma_slot_is_unique(members, i, slot);
        }
    }
    assert(cleared =~= gone);
}

/// The membership table: one mailbox per member, kept from the lowest
/// identifier upward. Who is a member never changes after construction.
#[derive(Debug)]
pub struct Topology {
    members: Vec<(RaftId, RaftChannel)>,
}

/// What contracts see of a list of identifiers with their mailboxes.
pub open spec fn members_of(pairs: Seq<(RaftId, RaftChannel)>) -> Seq<Member> {
    pairs.map_values(|pair: (RaftId, RaftChannel)| Member { id: pair.0, inbox: pair.1@ })
}

/// Whether some position of `members` holds `id` with exactly `inbox`.
pub open spec fn holds(members: Seq<Member>, id: RaftId, inbox: Seq<RaftMessage>) -> bool {
    exists|s: int| 0 <= s < members.len() && #[trigger] members[s] == (Member { id, inbox })
}

/// Whether the pair at position `i` is the last one given for its identifier.
pub open spec fn is_last_given(given: Seq<(RaftId, RaftChannel)>, i: int) -> bool {
    forall|j: int| i < j < given.len() ==> (#[trigger] given[j]).0 != given[i].0
}

/// Whether `id` is given at position `from` or later.
pub open spec fn given_from(given: Seq<(RaftId, RaftChannel)>, from: int, id: RaftId) -> bool {
    exists|i: int| from <= i < given.len() && (#[trigger] given[i]).0 == id
}

/// Putting a member between those below it and those above it keeps the order
/// and adds that member and no other.
proof fn lemma_insert_member(members: Seq<Member>, position: int, member: Member)
    requires
        ordered(members),
        0 <= position <= members.len(),
        forall|i: int| 0 <= i < position ==> (#[trigger] members[i]).id.0 < member.id.0,
        forall|i: int| position <= i < members.len() ==> (#[trigger] members[i]).id.0 > member.id.0,
    ensures
        ordered(members.insert(position, member)),
        forall|id: RaftId|
            has_member(members.insert(position, member), id) <==> has_member(members, id) || id
                == member.id,
        forall|id: RaftId, inbox: Seq<RaftMessage>| #[trigger]
            holds(members, id, inbox) ==> holds(members.insert(position, member), id, inbox),
        holds(members.insert(position, member), member.id, member.inbox),
{
    let after = members.insert(position, member);
    assert forall|i: int, j: int| 0 <= i < j < after.len() implies (#[trigger] after[i]).id.0 < (
    #[trigger] after[j]).id.0 by {
        let a = if i < position { i } else { i - 1 };
        let b = if j < position { j } else { j - 1 };
        if i != position && j != position {
            assert(members[a].id.0 < members[b].id.0);
        } else if i == position {
            assert(members[b].id.0 > member.id.0);
        } else {
            assert(members[a].id.0 < member.id.0);
        }
    }
    assert forall|id: RaftId| has_member(after, id) <==> has_member(members, id) || id
        == member.id by {
        if has_member(after, id) {
            let i = choose|i: int| 0 <= i < after.len() && (#[trigger] after[i]).id == id;
            if i < position {
                assert(members[i].id == id);
            } else if i > position {
                assert(members[i - 1].id == id);
            }
        }
        if has_member(members, id) {
            let i = choose|i: int| 0 <= i < members.len() && (#[trigger] members[i]).id == id;
            let k = if i < position { i } else { i + 1 };
            assert(after[k].id == id);
        }
        if id == member.id {
            assert(after[position].id == id);
        }
    }
    assert forall|id: RaftId, inbox: Seq<RaftMessage>| #[trigger]
        holds(members, id, inbox) implies holds(after, id, inbox) by {
        let s = choose|s: int| 0 <= s < members.len() && #[trigger] members[s] == (Member { id, inbox });
        let k = if s < position { s } else { s + 1 };
        assert(after[k] == (Member { id, inbox }));
    }
    assert(after[position] == (Member { id: member.id, inbox: member.inbox }));
}

/// The first position of `members` whose identifier is not below `id`.
fn lower_bound(members: &Vec<(RaftId, RaftChannel)>, id: RaftId) -> (position: usize)
    requires
        ordered(members_of(members@)),
    ensures
        position <= members@.len(),
        forall|i: int| 0 <= i < position ==> (#[trigger] members_of(members@)[i]).id.0 < id.0,
        forall|i: int|
            position <= i < members@.len() ==> (#[trigger] members_of(members@)[i]).id.0 >= id.0,
        position < members@.len() && members@[position as int].0 != id ==> forall|i: int|
            position <= i < members@.len() ==> (#[trigger] members_of(members@)[i]).id.0 > id.0,
{
    let ghost seen = members_of(members@);
    let mut position: usize = 0;
    while position < members.len() && members[position].0.0 < id.0
        invariant
            position <= members@.len(),
            seen == members_of(members@),
            forall|i: int| 0 <= i < position ==> (#[trigger] seen[i]).id.0 < id.0,
        decreases members@.len() - position,
    {
        assert(seen[position as int].id == members@[position as int].0);
        position += 1;
    }
    proof {
        if position < members@.len() {
            assert(seen[position as int].id == members@[position as int].0);
        }
        assert forall|i: int| position <= i < members@.len() implies (#[trigger] seen[i]).id.0
            >= id.0 by {
            if position < i {
                assert(seen[position as int].id.0 < seen[i].id.0);
            }
        }
        if position < members@.len() && members@[position as int].0 != id {
            assert forall|i: int| position <= i < members@.len() implies (#[trigger] seen[i]).id.0
                > id.0 by {
                if position < i {
                    assert(seen[position as int].id.0 < seen[i].id.0);
                }
            }
        }
    }
    position
}

impl View for Topology {
    type V = Seq<Member>;

    closed spec fn view(&self) -> Seq<Member> {
        members_of(self.members@)
    }
}

impl Topology {
    /// The members stand from the lowest identifier upward, each once.
    pub open spec fn wf(&self) -> bool {
        ordered(self@)
    }

    /// Whether `id` names a member.
    pub open spec fn contains(&self, id: RaftId) -> bool {
        has_member(self@, id)
    }

    /// Builds the table from identifiers with their mailboxes, in any order.
    /// Where an identifier is given more than once, the mailbox given last
    /// stays.
    pub fn from_iter(members: Vec<(RaftId, RaftChannel)>) -> (topology: Topology)
        ensures
            topology.wf(),
            forall|id: RaftId| topology.contains(id) <==> given_from(members@, 0, id),
            forall|i: int|
                0 <= i < members@.len() && #[trigger] is_last_given(members@, i) ==> inbox_of(
                    topology@,
                    members@[i].0,
                ) == members@[i].1@,
            ordered(members_of(members@)) ==> topology@ == members_of(members@),
    {
        let ghost given = members@;
        let mut rest = members;
        let mut kept: Vec<(RaftId, RaftChannel)> = Vec::new();
        proof {
            assert(members_of(kept@) =~= members_of(given).skip(given.len() as int));
        }
        loop
            invariant
                rest@.len() <= given.len(),
                rest@ == given.take(rest@.len() as int),
                ordered(members_of(kept@)),
                forall|id: RaftId|
                    has_member(members_of(kept@), id) <==> given_from(given, rest@.len() as int, id),
                forall|i: int|
                    rest@.len() <= i < given.len() && #[trigger] is_last_given(given, i) ==> holds(
                        members_of(kept@),
                        given[i].0,
                        given[i].1@,
                    ),
                ordered(members_of(given)) ==> members_of(kept@) == members_of(given).skip(
                    rest@.len() as int,
                ),
            ensures
                rest@.len() == 0,
            decreases rest@.len(),
        {
            let ghost before = members_of(kept@);
            let ghost n = rest@.len() as int;
            match rest.pop() {
                None => {
                    break ;
                },
                Some(pair) => {
                    assert(pair == given[n - 1]);
                    let position = lower_bound(&kept, pair.0);
                    let ghost member = Member { id: pair.0, inbox: pair.1@ };
                    proof {
                        let all = members_of(given);
                        if ordered(all) && n < given.len() {
                            assert(before[0] == all[n]);
                            assert(all[n - 1].id.0 < all[n].id.0);
                        }
                    }
                    if position < kept.len() && kept[position].0.0 == pair.0.0 {
                        proof {
                            assert(before[position as int].id == pair.0);
                            assert(has_member(before, pair.0));
                            assert(given_from(given, n, pair.0));
                            assert(!is_last_given(given, n - 1));
                        }
                    } else {
                        kept.insert(position, pair);
                        proof {
                            assert(members_of(kept@) =~= before.insert(position as int, member));
                            lemma_insert_member(before, position as int, member);
                            assert(holds(members_of(kept@), given[n - 1].0, given[n - 1].1@));
                            if ordered(members_of(given)) {
                                assert(members_of(kept@) =~= members_of(given).skip(n - 1));
                            }
                        }
                    }
                    proof {
                        let now = members_of(kept@);
                        assert forall|id: RaftId| has_member(now, id) implies given_from(
                            given,
                            n - 1,
                            id,
                        ) by {
                            if id == pair.0 {
                                assert(given[n - 1].0 == id);
                            } else {
                                assert(has_member(before, id));
                                assert(given_from(given, n, id));
                                let i = choose|i: int|
                                    n <= i < given.len() && (#[trigger] given[i]).0 == id;
                                assert(given[i].0 == id);
                            }
                        }
                        assert forall|id: RaftId| given_from(given, n - 1, id) implies has_member(
                            now,
                            id,
                        ) by {
                            let i = choose|i: int|
                                n - 1 <= i < given.len() && (#[trigger] given[i]).0 == id;
                            if i >= n {
                                assert(given_from(given, n, id));
                                assert(has_member(before, id));
                            }
                        }
                    }
                },
            }
        }
        let topology = Topology { members: kept };
        proof {
            assert(members_of(given).skip(0) =~= members_of(given));
            assert forall|i: int|
                0 <= i < given.len() && #[trigger] is_last_given(given, i) implies inbox_of(
                topology@,
                given[i].0,
            ) == given[i].1@ by {
                let s = choose|s: int|
                    0 <= s < topology@.len() && #[trigger] topology@[s] == (Member {
                        id: given[i].0,
                        inbox: given[i].1@,
                    });
                lemma_slot_of_member(topology@, s);
            }
        }
        topology
    }

    /// The number of members.
    pub fn len(&self) -> (n: usize)
        ensures
            n == self@.len(),
    {
        self.members.len()
    }

    /// The identifier of the member at `slot`.
    pub fn id_at(&self, slot: usize) -> (id: RaftId)
        requires
            slot < self@.len(),
        ensures
            id == self@[slot as int].id,
    {
        self.members[slot].0
    }

    /// The identifiers of all members, lowest first.
    pub fn ids(&self) -> (ids: Vec<RaftId>)
        ensures
            ids@ == self@.map_values(|member: Member| member.id),
    {
        let mut ids: Vec<RaftId> = Vec::new();
        let mut slot: usize = 0;
        while slot < self.members.len()
            invariant
                slot <= self.members@.len(),
                ids@ == self@.map_values(|member: Member| member.id).take(slot as int),
            decreases self.members@.len() - slot,
        {
            ids.push(self.members[slot].0);
            slot += 1;
        }
        ids
    }

    /// The position of the member named `id`, if there is one.
    pub fn slot_of(&self, id: RaftId) -> (slot: Option<usize>)
        requires
            self.wf(),
        ensures
            slot is Some <==> self.contains(id),
            slot matches Some(found) ==> found == slot_of(self@, id) && found < self@.len()
                && self@[found as int].id == id,
    {
        let position = lower_bound(&self.members, id);
        if position < self.members.len() && self.members[position].0.0 == id.0 {
            proof {
                assert(self@[position as int].id == id);
                lemma_slot_of_member(self@, position as int);
            }
            Some(position)
        } else {
            proof {
                if has_member(self@, id) {
                    let i = choose|i: int| 0 <= i < self@.len() && (#[trigger] self@[i]).id == id;
                    if i < position {
                        assert(self@[i].id.0 < id.0);
                    } else {
                        assert(self@[i].id.0 > id.0);
                    }
                }
            }
            None
        }
    }

    /// The mailbox at `slot`, to look into.
    pub fn channel(&self, slot: usize) -> (channel: &RaftChannel)
        requires
            slot < self@.len(),
        ensures
            channel@ == self@[slot as int].inbox,
    {
        &self.members[slot].1
    }

    /// The mailbox at `slot`, to push into or pop from. No other mailbox
    /// changes, and no identifier does.
    pub fn channel_mut(&mut self, slot: usize) -> (channel: &mut RaftChannel)
        requires
            slot < old(self)@.len(),
        ensures
            channel@ == old(self)@[slot as int].inbox,
            final(self)@ == old(self)@.update(
                slot as int,
                Member { id: old(self)@[slot as int].id, inbox: final(channel)@ },
            ),
    {
        &mut self.members[slot].1
    }
}

} // verus!
