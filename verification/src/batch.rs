//! Batching of set updates: commands that go to the same set with keys of
//! the same length are sent together, in one request.

use vstd::prelude::*;
use crate::dns::{commands_view, NftCommand, NftCommandView};
use crate::netlink::u32_be_bytes;
use crate::nftables::{elements_view, NftElement, NftElementView};

verus! {

/// What commands are grouped by: family, table, set name and key length.
pub type GroupKey = (Seq<char>, Seq<char>, Seq<char>, nat);

/// The group key of a command.
pub open spec fn group_key(c: NftCommandView) -> GroupKey {
    (c.family, c.table, c.set_name, c.key.len())
}

/// The distinct group keys of `cs`, in the order in which they first occur.
pub open spec fn group_keys(cs: Seq<NftCommandView>) -> Seq<GroupKey>
    decreases cs.len(),
{
    if cs.len() == 0 {
        seq![]
    } else {
        let ks = group_keys(cs.drop_last());
        if ks.contains(group_key(cs.last())) {
            ks
        } else {
            ks.push(group_key(cs.last()))
        }
    }
}

/// The commands of `cs` with group key `k`, in their order.
pub open spec fn group_members(cs: Seq<NftCommandView>, k: GroupKey) -> Seq<NftCommandView> {
    cs.filter(|c: NftCommandView| group_key(c) == k)
}

/// Commands that share a group key.
#[derive(Debug, Clone)]
pub struct CommandGroup {
    pub family: String,
    pub table: String,
    pub set_name: String,
    pub key_len: usize,
    pub commands: Vec<NftCommand>,
}

impl CommandGroup {
    pub open spec fn key(&self) -> GroupKey {
        (self.family@, self.table@, self.set_name@, self.key_len as nat)
    }
}

/// Every command's key is among the group keys, and the group keys are
/// distinct.
proof fn lemma_group_keys(cs: Seq<NftCommandView>)
    ensures
        forall|i: int| 0 <= i < cs.len() ==> group_keys(cs).contains(#[trigger] group_key(cs[i])),
        forall|i: int, j: int| 0 <= i < j < group_keys(cs).len() ==> group_keys(cs)[i] != group_keys(cs)[j],
    decreases cs.len(),
{
    if cs.len() > 0 {
        let rest = cs.drop_last();
        lemma_group_keys(rest);
        let ks = group_keys(rest);
        assert forall|i: int| 0 <= i < cs.len() implies group_keys(cs).contains(#[trigger] group_key(cs[i])) by {
            if i < cs.len() - 1 {
                assert(cs[i] == rest[i]);
                assert(ks.contains(group_key(rest[i])));
                if !ks.contains(group_key(cs.last())) {
                    let w = choose|w: int| 0 <= w < ks.len() && ks[w] == group_key(rest[i]);
                    assert(group_keys(cs)[w] == group_key(cs[i]));
                }
            } else {
                if !ks.contains(group_key(cs.last())) {
                    assert(group_keys(cs)[ks.len() as int] == group_key(cs[i]));
                }
            }
        }
    }
}

/// A key that no command has selects no command.
proof fn lemma_members_absent(cs: Seq<NftCommandView>, k: GroupKey)
    requires
        !group_keys(cs).contains(k),
    ensures
        group_members(cs, k) == Seq::<NftCommandView>::empty(),
    decreases cs.len(),
{
    reveal(Seq::filter);
    if cs.len() > 0 {
        lemma_group_keys(cs);
        let rest = cs.drop_last();
        assert(group_keys(cs).contains(group_key(cs[cs.len() - 1])));
        if group_keys(rest).contains(k) {
            let w = choose|w: int| 0 <= w < group_keys(rest).len() && group_keys(rest)[w] == k;
            assert(group_keys(cs)[w] == k);
        }
        lemma_members_absent(rest, k);
    }
}

/// The groups of `cs`, one per group key in order of first occurrence,
/// each holding its members in order.
pub open spec fn groups_of(groups: Seq<CommandGroup>, cs: Seq<NftCommandView>) -> bool {
    &&& groups.len() == group_keys(cs).len()
    &&& forall|i: int| 0 <= i < groups.len() ==> {
        &&& (#[trigger] groups[i]).key() == group_keys(cs)[i]
        &&& commands_view(groups[i].commands@) == group_members(cs, group_keys(cs)[i])
    }
}

/// The position of the group with the key of `cmd`, if there is one.
fn find_group(groups: &Vec<CommandGroup>, cmd: &NftCommand) -> (r: Option<usize>)
    ensures
        match r {
            Some(j) => j < groups@.len() && groups@[j as int].key() == group_key(cmd@),
            None => forall|q: int| 0 <= q < groups@.len() ==> (#[trigger] groups@[q]).key() != group_key(cmd@),
        },
{
    let mut j: usize = 0;
    while j < groups.len()
        invariant
            j <= groups@.len(),
            forall|q: int| 0 <= q < j ==> (#[trigger] groups@[q]).key() != group_key(cmd@),
        decreases groups@.len() - j,
    {
        let g = &groups[j];
        if g.key_len == cmd.key.len() && g.family == cmd.family && g.table == cmd.table && g.set_name
            == cmd.set_name {
            return Some(j);
        }
        j += 1;
    }
    None
}

/// Adding a command to the commands of a prefix keeps every other group
/// and appends the command to its own group.
proof fn lemma_members_push(cs: Seq<NftCommandView>, c: NftCommandView, k: GroupKey)
    ensures
        group_members(cs.push(c), k) == if group_key(c) == k {
            group_members(cs, k).push(c)
        } else {
            group_members(cs, k)
        },
{
    reveal(Seq::filter);
    assert(cs.push(c).drop_last() =~= cs);
}

/// Splits `commands` into groups by family, table, set name and key
/// length (see `groups_of`).
pub fn group_commands(commands: Vec<NftCommand>) -> (r: Vec<CommandGroup>)
    ensures
        groups_of(r@, commands_view(commands@)),
{
    let ghost cs = commands_view(commands@);
    let ghost all = commands@;
    let mut groups: Vec<CommandGroup> = Vec::new();
    proof {
        assert(cs.take(0) =~= Seq::<NftCommandView>::empty());
    }
    for cmd in it: commands.into_iter()
        invariant
            it.seq() == all,
            cs == commands_view(all),
            groups_of(groups@, cs.take(it.index())),
    {
        let ghost n = it.index();
        let ghost pre = cs.take(n);
        proof {
            assert(cs.take(n + 1) =~= pre.push(cmd@));
            lemma_group_keys(pre);
        }
        match find_group(&groups, &cmd) {
            Some(j) => {
                let ghost before = groups@;
                proof {
                    assert(group_keys(pre).contains(group_key(cmd@)));
                    assert(group_keys(pre.push(cmd@)) =~= group_keys(pre)) by {
                        assert(pre.push(cmd@).drop_last() =~= pre);
                    }
                }
                groups[j].commands.push(cmd);
                proof {
                    assert forall|i: int| 0 <= i < groups@.len() implies {
                        &&& (#[trigger] groups@[i]).key() == group_keys(pre.push(cmd@))[i]
                        &&& commands_view(groups@[i].commands@) == group_members(
                            pre.push(cmd@),
                            group_keys(pre.push(cmd@))[i],
                        )
                    } by {
                        lemma_members_push(pre, cmd@, group_keys(pre)[i]);
                        if i == j {
                            assert(commands_view(groups@[i].commands@) =~= commands_view(
                                before[i].commands@,
                            ).push(cmd@));
                        } else {
                            assert(groups@[i] == before[i]);
                        }
                    }
                }
            },
            None => {
                let ghost before = groups@;
                proof {
                    if group_keys(pre).contains(group_key(cmd@)) {
                        let w = choose|w: int|
                            0 <= w < group_keys(pre).len() && group_keys(pre)[w] == group_key(cmd@);
                        assert(before[w].key() == group_key(cmd@));
                    }
                    assert(group_keys(pre.push(cmd@)) =~= group_keys(pre).push(group_key(cmd@))) by {
                        assert(pre.push(cmd@).drop_last() =~= pre);
                    }
                    lemma_members_absent(pre, group_key(cmd@));
                }
                let group = CommandGroup {
                    family: cmd.family.clone(),
                    table: cmd.table.clone(),
                    set_name: cmd.set_name.clone(),
                    key_len: cmd.key.len(),
                    commands: vec![cmd],
                };
                groups.push(group);
                proof {
                    assert forall|i: int| 0 <= i < groups@.len() implies {
                        &&& (#[trigger] groups@[i]).key() == group_keys(pre.push(cmd@))[i]
                        &&& commands_view(groups@[i].commands@) == group_members(
                            pre.push(cmd@),
                            group_keys(pre.push(cmd@))[i],
                        )
                    } by {
                        lemma_members_push(pre, cmd@, group_keys(pre.push(cmd@))[i]);
                        if i == before.len() {
                            assert(commands_view(groups@[i].commands@) =~= seq![cmd@]);
                            assert(Seq::<NftCommandView>::empty().push(cmd@) =~= seq![cmd@]);
                        } else {
                            assert(groups@[i] == before[i]);
                            assert(group_keys(pre)[i] != group_key(cmd@));
                        }
                    }
                }
            },
        }
    }
    proof {
        assert(cs.take(cs.len() as int) =~= cs);
    }
    groups
}

/// Every command of a group has the group's key, and every command is in
/// the group of its key: batching neither mixes sets nor loses commands.
pub proof fn lemma_groups_partition(groups: Seq<CommandGroup>, cs: Seq<NftCommandView>)
    requires
        groups_of(groups, cs),
    ensures
        forall|i: int, m: int|
            0 <= i < groups.len() && 0 <= m < groups[i].commands@.len() ==> group_key(
                #[trigger] groups[i].commands@[m]@,
            ) == groups[i].key(),
        forall|n: int|
            0 <= n < cs.len() ==> exists|i: int|
                0 <= i < groups.len() && (#[trigger] groups[i]).key() == group_key(#[trigger] cs[n])
                    && commands_view(groups[i].commands@).contains(cs[n]),
{
    lemma_group_keys(cs);
    assert forall|i: int, m: int|
        0 <= i < groups.len() && 0 <= m < groups[i].commands@.len() implies group_key(
            #[trigger] groups[i].commands@[m]@,
        ) == groups[i].key() by {
        let k = group_keys(cs)[i];
        let p = |x: NftCommandView| group_key(x) == k;
        assert(commands_view(groups[i].commands@)[m] == groups[i].commands@[m]@);
        cs.lemma_filter_pred(p, m);
    }
    assert forall|n: int| 0 <= n < cs.len() implies exists|i: int|
        0 <= i < groups.len() && (#[trigger] groups[i]).key() == group_key(#[trigger] cs[n])
            && commands_view(groups[i].commands@).contains(cs[n]) by {
        let k = group_key(cs[n]);
        assert(group_keys(cs).contains(k));
        let i = choose|i: int| 0 <= i < group_keys(cs).len() && group_keys(cs)[i] == k;
        let p = |x: NftCommandView| group_key(x) == k;
        cs.lemma_filter_contains(p, n);
        assert(groups[i].key() == group_key(cs[n]));
    }
}

/// The groups to send to the kernel: none in a dry run, else the groups of
/// `commands` (see `groups_of`).
pub fn groups_to_send(commands: Vec<NftCommand>, dry_run: bool) -> (r: Vec<CommandGroup>)
    ensures
        dry_run ==> r@.len() == 0,
        !dry_run ==> groups_of(r@, commands_view(commands@)),
{
    if dry_run {
        Vec::new()
    } else {
        group_commands(commands)
    }
}

/// What the batcher learns from the command channel.
pub enum ChannelEvent {
    /// A command arrived.
    Received(NftCommand),
    /// No command is waiting.
    Empty,
    /// Every sender is gone.
    Closed,
}

/// What the batcher does next.
pub enum BatchAction {
    /// Wait for the next command.
    ReceiveBlocking,
    /// Take a waiting command, if there is one, without waiting.
    TryReceive,
    /// Send these commands to the kernel, then wait for the next command.
    Flush(Vec<NftCommand>),
    /// Stop: nothing is pending and no command will come.
    Stop,
}

/// One step of the batcher: commands are collected until `batch_limit` of
/// them are pending or no further command is waiting, then flushed; when
/// the channel closes, what is pending is flushed and the batcher stops.
/// Fewer than `batch_limit` commands stay pending, so that no flush holds
/// more than `batch_limit` of them (one, when the limit is 0).
pub fn batch_step(pending: &mut Vec<NftCommand>, batch_limit: usize, event: ChannelEvent) -> (a: BatchAction)
    ensures
        final(pending)@.len() == 0 || final(pending)@.len() < batch_limit,
        (old(pending)@.len() == 0 || old(pending)@.len() < batch_limit) ==> (a matches BatchAction::Flush(
            v,
        ) ==> v@.len() <= if batch_limit == 0 {
            1
        } else {
            batch_limit
        }),
        match event {
            ChannelEvent::Received(c) => if old(pending)@.len() + 1 < batch_limit {
                &&& commands_view(final(pending)@) == commands_view(old(pending)@).push(c@)
                &&& a is TryReceive
            } else {
                &&& final(pending)@.len() == 0
                &&& a matches BatchAction::Flush(v) && commands_view(v@) == commands_view(
                    old(pending)@,
                ).push(c@)
            },
            ChannelEvent::Empty => if old(pending)@.len() > 0 {
                &&& final(pending)@.len() == 0
                &&& a matches BatchAction::Flush(v) && commands_view(v@) == commands_view(old(pending)@)
            } else {
                final(pending)@.len() == 0 && a is ReceiveBlocking
            },
            ChannelEvent::Closed => if old(pending)@.len() > 0 {
                &&& final(pending)@.len() == 0
                &&& a matches BatchAction::Flush(v) && commands_view(v@) == commands_view(old(pending)@)
            } else {
                final(pending)@.len() == 0 && a is Stop
            },
        },
{
    let ghost before = commands_view(pending@);
    match event {
        ChannelEvent::Received(c) => {
            let full = pending.len() >= batch_limit || batch_limit - pending.len() <= 1;
            pending.push(c);
            proof {
                assert(commands_view(pending@) =~= before.push(c@));
            }
            if full {
                let mut batch = Vec::new();
                std::mem::swap(&mut batch, pending);
                BatchAction::Flush(batch)
            } else {
                BatchAction::TryReceive
            }
        },
        ChannelEvent::Empty => {
            if pending.len() > 0 {
                let mut batch = Vec::new();
                std::mem::swap(&mut batch, pending);
                BatchAction::Flush(batch)
            } else {
                BatchAction::ReceiveBlocking
            }
        },
        ChannelEvent::Closed => {
            if pending.len() > 0 {
                let mut batch = Vec::new();
                std::mem::swap(&mut batch, pending);
                BatchAction::Flush(batch)
            } else {
                BatchAction::Stop
            }
        },
    }
}

/// An element for each command: its key and timeout.
pub open spec fn element_of(c: NftCommandView) -> NftElementView {
    (c.key, c.timeout_secs)
}

impl CommandGroup {
    /// The set elements of the group's commands, in order.
    pub fn into_elements(self) -> (r: Vec<NftElement>)
        ensures
            elements_view(r@) == commands_view(self.commands@).map_values(|c: NftCommandView| element_of(c)),
    {
        let ghost all = self.commands@;
        let mut elements: Vec<NftElement> = Vec::new();
        for cmd in it: self.commands.into_iter()
            invariant
                it.seq() == all,
                elements_view(elements@) == commands_view(all.take(it.index())).map_values(
                    |c: NftCommandView| element_of(c),
                ),
        {
            let ghost n = it.index();
            proof {
                assert(commands_view(all.take(n + 1)).map_values(|c: NftCommandView| element_of(c))
                    =~= commands_view(all.take(n)).map_values(|c: NftCommandView| element_of(c)).push(
                    element_of(cmd@),
                ));
            }
            let ghost before = elements@;
            elements.push(NftElement { key: cmd.key, timeout_secs: cmd.timeout_secs });
            proof {
                assert(elements_view(elements@) =~= elements_view(before).push(element_of(cmd@)));
            }
        }
        proof {
            assert(all.take(all.len() as int) =~= all);
        }
        elements
    }
}

/// Whom a set key is for.
#[derive(Debug, Clone, Copy, PartialEq, Eq)]
pub enum KeySource {
    /// A pair key: the client's address and the resolved address.
    Client { client: u32, resolved: u32 },
    /// A global key: the resolved address.
    Global { resolved: u32 },
    /// A key of another length.
    Unknown,
}

/// Four bytes read as an address, most significant first.
pub open spec fn be_u32(b: Seq<u8>) -> u32 {
    ((b[0] as u32) << 24) | ((b[1] as u32) << 16) | ((b[2] as u32) << 8) | (b[3] as u32)
}

/// The addresses in a set key: eight bytes hold the client's address and
/// the resolved one, four bytes the resolved one.
pub open spec fn key_source(key: Seq<u8>) -> KeySource {
    if key.len() == 8 {
        KeySource::Client { client: be_u32(key.take(4)), resolved: be_u32(key.skip(4)) }
    } else if key.len() == 4 {
        KeySource::Global { resolved: be_u32(key) }
    } else {
        KeySource::Unknown
    }
}

fn read_be_u32(key: &[u8], off: usize) -> (r: u32)
    requires
        off + 4 <= key@.len(),
    ensures
        r == be_u32(key@.subrange(off as int, off + 4)),
{
    ((key[off] as u32) << 24) | ((key[off + 1] as u32) << 16) | ((key[off + 2] as u32) << 8) | (key[off
        + 3] as u32)
}

/// The addresses in a set key (see `key_source`).
pub fn describe_key(key: &[u8]) -> (r: KeySource)
    ensures
        r == key_source(key@),
{
    if key.len() == 8 {
        let client = read_be_u32(key, 0);
        let resolved = read_be_u32(key, 4);
        proof {
            assert(key@.subrange(0, 4) =~= key@.take(4));
            assert(key@.subrange(4, 8) =~= key@.skip(4));
        }
        KeySource::Client { client, resolved }
    } else if key.len() == 4 {
        let resolved = read_be_u32(key, 0);
        proof {
            assert(key@.subrange(0, 4) =~= key@);
        }
        KeySource::Global { resolved }
    } else {
        KeySource::Unknown
    }
}

/// An address written most significant byte first reads back unchanged.
pub proof fn lemma_be_u32_roundtrip(v: u32)
    ensures
        be_u32(u32_be_bytes(v)) == v,
{
    assert(((((((v >> 24) & 0xff) as u8) as u32) << 24) | (((((v >> 16) & 0xff) as u8) as u32) << 16)
        | (((((v >> 8) & 0xff) as u8) as u32) << 8) | (((v & 0xff) as u8) as u32)) == v) by (bit_vector);
}

/// The key that a pair set gets for a client and an address reads back as
/// that client and address; a global key reads back as its address.
pub proof fn lemma_key_source_roundtrip(client: u32, resolved: u32)
    ensures
        key_source(u32_be_bytes(client) + u32_be_bytes(resolved)) == (KeySource::Client { client, resolved }),
        key_source(u32_be_bytes(resolved)) == (KeySource::Global { resolved }),
{
    lemma_be_u32_roundtrip(client);
    lemma_be_u32_roundtrip(resolved);
    assert((u32_be_bytes(client) + u32_be_bytes(resolved)).take(4) =~= u32_be_bytes(client));
    assert((u32_be_bytes(client) + u32_be_bytes(resolved)).skip(4) =~= u32_be_bytes(resolved));
}

} // verus!
