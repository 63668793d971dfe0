use dns_nftsetter::batch::{
    batch_step, describe_key, group_commands, groups_to_send, BatchAction, ChannelEvent, KeySource,
};
use dns_nftsetter::dns::NftCommand;

fn cmd(family: &str, set_name: &str, key: Vec<u8>, timeout_secs: u32, domain: &str) -> NftCommand {
    NftCommand {
        family: family.to_string(),
        table: "filter".to_string(),
        set_name: set_name.to_string(),
        key,
        timeout_secs,
        domain: domain.to_string(),
        rule_pattern: domain.to_string(),
    }
}

#[test]
fn commands_are_grouped_by_set_and_key_length() {
    let commands = vec![
        cmd("ip", "a", vec![1, 1, 1, 1], 10, "one"),
        cmd("ip", "b", vec![2, 2, 2, 2], 20, "two"),
        cmd("ip", "a", vec![3, 3, 3, 3], 30, "three"),
        cmd("ip", "a", vec![4, 4, 4, 4, 5, 5, 5, 5], 40, "four"),
        cmd("inet", "a", vec![6, 6, 6, 6], 50, "five"),
        cmd("ip", "b", vec![7, 7, 7, 7], 60, "six"),
    ];
    let groups = group_commands(commands);
    assert_eq!(groups.len(), 4);
    let summary: Vec<(String, String, usize, Vec<String>)> = groups
        .iter()
        .map(|g| {
            (
                g.family.clone(),
                g.set_name.clone(),
                g.key_len,
                g.commands.iter().map(|c| c.domain.clone()).collect(),
            )
        })
        .collect();
    assert_eq!(summary[0], ("ip".to_string(), "a".to_string(), 4, vec!["one".to_string(), "three".to_string()]));
    assert_eq!(summary[1], ("ip".to_string(), "b".to_string(), 4, vec!["two".to_string(), "six".to_string()]));
    assert_eq!(summary[2], ("ip".to_string(), "a".to_string(), 8, vec!["four".to_string()]));
    assert_eq!(summary[3], ("inet".to_string(), "a".to_string(), 4, vec!["five".to_string()]));
    assert!(groups.iter().all(|g| g.table == "filter"));
}

#[test]
fn no_commands_no_groups() {
    assert!(group_commands(Vec::new()).is_empty());
}

#[test]
fn group_elements_keep_keys_and_timeouts() {
    let groups = group_commands(vec![
        cmd("ip", "a", vec![1, 1, 1, 1], 10, "one"),
        cmd("ip", "a", vec![3, 3, 3, 3], 30, "three"),
    ]);
    let elements = groups.into_iter().next().unwrap().into_elements();
    assert_eq!(elements.len(), 2);
    assert_eq!(elements[0].key, vec![1, 1, 1, 1]);
    assert_eq!(elements[0].timeout_secs, 10);
    assert_eq!(elements[1].key, vec![3, 3, 3, 3]);
    assert_eq!(elements[1].timeout_secs, 30);
}

#[test]
fn keys_are_described_by_length() {
    assert_eq!(
        describe_key(&[192, 168, 1, 100, 1, 2, 3, 4]),
        KeySource::Client { client: 0xC0A8_0164, resolved: 0x0102_0304 }
    );
    assert_eq!(describe_key(&[1, 2, 3, 4]), KeySource::Global { resolved: 0x0102_0304 });
    assert_eq!(describe_key(&[1, 2, 3]), KeySource::Unknown);
    assert_eq!(describe_key(&[]), KeySource::Unknown);
}

fn domains(v: &[NftCommand]) -> Vec<String> {
    v.iter().map(|c| c.domain.clone()).collect()
}

#[test]
fn batches_fill_up_to_the_limit() {
    let mut pending = Vec::new();
    let a = batch_step(&mut pending, 3, ChannelEvent::Received(cmd("ip", "a", vec![1, 1, 1, 1], 1, "one")));
    assert!(matches!(a, BatchAction::TryReceive));
    let a = batch_step(&mut pending, 3, ChannelEvent::Received(cmd("ip", "a", vec![2, 2, 2, 2], 1, "two")));
    assert!(matches!(a, BatchAction::TryReceive));
    let a = batch_step(&mut pending, 3, ChannelEvent::Received(cmd("ip", "a", vec![3, 3, 3, 3], 1, "three")));
    match a {
        BatchAction::Flush(v) => assert_eq!(domains(&v), vec!["one", "two", "three"]),
        _ => panic!("expected a flush"),
    }
    assert!(pending.is_empty());
}

#[test]
fn a_quiet_channel_flushes_what_is_pending() {
    let mut pending = Vec::new();
    let a = batch_step(&mut pending, 128, ChannelEvent::Received(cmd("ip", "a", vec![1, 1, 1, 1], 1, "one")));
    assert!(matches!(a, BatchAction::TryReceive));
    match batch_step(&mut pending, 128, ChannelEvent::Empty) {
        BatchAction::Flush(v) => assert_eq!(domains(&v), vec!["one"]),
        _ => panic!("expected a flush"),
    }
    assert!(matches!(batch_step(&mut pending, 128, ChannelEvent::Empty), BatchAction::ReceiveBlocking));
}

#[test]
fn a_closed_channel_flushes_then_stops() {
    let mut pending = Vec::new();
    batch_step(&mut pending, 128, ChannelEvent::Received(cmd("ip", "a", vec![1, 1, 1, 1], 1, "one")));
    match batch_step(&mut pending, 128, ChannelEvent::Closed) {
        BatchAction::Flush(v) => assert_eq!(domains(&v), vec!["one"]),
        _ => panic!("expected a flush"),
    }
    assert!(matches!(batch_step(&mut pending, 128, ChannelEvent::Closed), BatchAction::Stop));
}

#[test]
fn limits_of_one_and_zero_flush_every_command() {
    for limit in [0, 1] {
        let mut pending = Vec::new();
        match batch_step(&mut pending, limit, ChannelEvent::Received(cmd("ip", "a", vec![1, 1, 1, 1], 1, "one"))) {
            BatchAction::Flush(v) => assert_eq!(domains(&v), vec!["one"]),
            _ => panic!("expected a flush"),
        }
    }
}

#[test]
fn dry_run_sends_nothing() {
    let commands = vec![cmd("ip", "a", vec![1, 1, 1, 1], 10, "one"), cmd("ip", "b", vec![2, 2, 2, 2], 10, "two")];
    assert!(groups_to_send(commands.clone(), true).is_empty());
    assert_eq!(groups_to_send(commands, false).len(), 2);
}
