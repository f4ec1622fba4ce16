use atc::channel::ChannelInfo;
use atc::command::ServerCommand;
use atc::dispatch::{flush_action, route, text_less, FlushAction, MessageQueues, Route, MAX_IDLE_SECONDS, MAX_QUEUED};

#[test]
fn channel_info_is_fifo() {
    let mut info = ChannelInfo::new("first".to_string());
    assert_eq!(info.len(), 1);
    info.enqueue("second".to_string());
    assert_eq!(info.len(), 2);
    assert_eq!(info.head(), Some("first".to_string()));
    assert_eq!(info.len(), 2);
    assert!(info.dequeue());
    assert_eq!(info.head(), Some("second".to_string()));
    info.update_instant();
    assert!(info.dequeue());
    assert_eq!(info.len(), 0);
    assert_eq!(info.head(), None);
    assert!(!info.dequeue());
}

#[test]
fn channel_info_starts_fresh() {
    let info = ChannelInfo::new("m".to_string());
    assert!(info.idle_seconds() <= 1);
}

#[test]
fn flush_actions() {
    assert!(matches!(flush_action(MAX_IDLE_SECONDS + 1, 1, true), FlushAction::Drop));
    assert!(matches!(flush_action(MAX_IDLE_SECONDS, 1, true), FlushAction::Send));
    assert!(matches!(flush_action(0, MAX_QUEUED + 1, true), FlushAction::Drop));
    assert!(matches!(flush_action(0, MAX_QUEUED, true), FlushAction::Send));
    assert!(matches!(flush_action(0, 3, false), FlushAction::Keep));
    assert!(matches!(flush_action(0, 0, true), FlushAction::Keep));
    assert_eq!(MAX_IDLE_SECONDS, 60);
    assert_eq!(MAX_QUEUED, 128);
}

#[test]
fn routes() {
    let registered = vec!["a".to_string()];
    assert!(matches!(route(ServerCommand::Terminate, &registered), Route::Stop));
    assert!(matches!(route(ServerCommand::Message(None, "x".into()), &registered), Route::Discard));
    match route(ServerCommand::Message(Some("a".into()), "x".into()), &registered) {
        Route::Deliver(t, m) => {
            assert_eq!(t, "a");
            assert_eq!(m, "x");
        }
        _ => panic!("should deliver"),
    }
    match route(ServerCommand::Message(Some("b".into()), "y".into()), &registered) {
        Route::Hold(t, m) => {
            assert_eq!(t, "b");
            assert_eq!(m, "y");
        }
        _ => panic!("should hold"),
    }
}

#[test]
fn queued_messages_go_out_one_per_flush_in_order() {
    let mut q = MessageQueues::new();
    q.queue_message("a".into(), "1".into());
    q.queue_message("a".into(), "2".into());
    q.queue_message("b".into(), "x".into());
    // nobody registered: nothing goes out, nothing is lost
    assert!(q.flush(&vec![]).is_empty());
    let registered = vec!["a".to_string()];
    let out = q.flush(&registered);
    assert_eq!(out, vec![("a".to_string(), "1".to_string())]);
    // not confirmed: the same message is picked again
    assert_eq!(q.flush(&registered), vec![("a".to_string(), "1".to_string())]);
    q.confirm_delivery(&"a".to_string());
    assert_eq!(q.flush(&registered), vec![("a".to_string(), "2".to_string())]);
    q.confirm_delivery(&"a".to_string());
    assert!(q.flush(&registered).is_empty());
    let both = vec!["a".to_string(), "b".to_string()];
    assert_eq!(q.flush(&both), vec![("b".to_string(), "x".to_string())]);
}

#[test]
fn confirming_an_unknown_channel_changes_nothing() {
    let mut q = MessageQueues::new();
    q.queue_message("a".into(), "1".into());
    q.confirm_delivery(&"zz".to_string());
    assert_eq!(q.flush(&vec!["a".to_string()]), vec![("a".to_string(), "1".to_string())]);
}

#[test]
fn overfull_queue_is_dropped() {
    let mut q = MessageQueues::new();
    for k in 0..(MAX_QUEUED + 1) {
        q.queue_message("a".into(), format!("{}", k));
    }
    q.queue_message("b".into(), "kept".into());
    let registered = vec!["a".to_string(), "b".to_string()];
    assert_eq!(q.flush(&registered), vec![("b".to_string(), "kept".to_string())]);
    // the queue of "a" is gone for good
    q.confirm_delivery(&"b".to_string());
    assert!(q.flush(&registered).is_empty());
}

#[test]
fn flush_goes_over_channels_in_id_order() {
    let mut q = MessageQueues::new();
    q.queue_message("c".into(), "3".into());
    q.queue_message("a".into(), "1".into());
    q.queue_message("ab".into(), "2".into());
    q.queue_message("a".into(), "1b".into());
    let all = vec!["c".to_string(), "ab".to_string(), "a".to_string()];
    assert_eq!(
        q.flush(&all),
        vec![
            ("a".to_string(), "1".to_string()),
            ("ab".to_string(), "2".to_string()),
            ("c".to_string(), "3".to_string()),
        ]
    );
}

#[test]
fn text_order() {
    assert!(text_less(&"a".to_string(), &"b".to_string()));
    assert!(text_less(&"a".to_string(), &"ab".to_string()));
    assert!(!text_less(&"ab".to_string(), &"a".to_string()));
    assert!(!text_less(&"a".to_string(), &"a".to_string()));
    assert!(text_less(&"".to_string(), &"a".to_string()));
    assert!(text_less(&"Z".to_string(), &"a".to_string()));
    assert!(text_less(&"z".to_string(), &"\u{e9}".to_string()));
}

#[test]
fn flush_at_drops_exactly_the_idle_and_overfull_queues() {
    let mut q = MessageQueues::new();
    q.queue_message("a".into(), "a1".into());
    q.queue_message("b".into(), "b1".into());
    q.queue_message("c".into(), "c1".into());
    for k in 0..(MAX_QUEUED + 1) {
        q.queue_message("d".into(), format!("{}", k));
    }
    let all = vec!["a".to_string(), "b".to_string(), "c".to_string(), "d".to_string()];
    // ids in order: a, b, c, d; b is idle too long, d holds too many
    let out = q.flush_at(&all, &vec![0, MAX_IDLE_SECONDS + 1, MAX_IDLE_SECONDS, 0]);
    assert_eq!(
        out,
        vec![("a".to_string(), "a1".to_string()), ("c".to_string(), "c1".to_string())]
    );
    // two queues are left: a and c, still holding their messages
    let out = q.flush_at(&all, &vec![0, 0]);
    assert_eq!(
        out,
        vec![("a".to_string(), "a1".to_string()), ("c".to_string(), "c1".to_string())]
    );
}

#[test]
fn flush_at_keeps_unregistered_fresh_queues() {
    let mut q = MessageQueues::new();
    q.queue_message("a".into(), "a1".into());
    assert!(q.flush_at(&vec![], &vec![5]).is_empty());
    assert_eq!(
        q.flush_at(&vec!["a".to_string()], &vec![5]),
        vec![("a".to_string(), "a1".to_string())]
    );
}

#[test]
fn a_delivery_long_ago_makes_the_queue_idle() {
    let mut q = MessageQueues::new();
    q.queue_message("a".into(), "a1".into());
    q.queue_message("a".into(), "a2".into());
    let registered = vec!["a".to_string()];
    let long_ago = tokio::time::Instant::now()
        .checked_sub(std::time::Duration::from_secs(MAX_IDLE_SECONDS + 5))
        .unwrap();
    q.confirm_delivery_at(&"a".to_string(), long_ago);
    assert!(q.flush(&registered).is_empty());
    q.queue_message("a".into(), "a3".into());
    assert_eq!(q.flush(&registered), vec![("a".to_string(), "a3".to_string())]);
}

#[test]
fn a_fresh_delivery_keeps_the_queue() {
    let mut q = MessageQueues::new();
    q.queue_message("a".into(), "a1".into());
    q.queue_message("a".into(), "a2".into());
    let registered = vec!["a".to_string()];
    q.confirm_delivery(&"a".to_string());
    assert_eq!(q.flush(&registered), vec![("a".to_string(), "a2".to_string())]);
}

#[test]
fn last_write_can_be_set() {
    let mut info = ChannelInfo::new("m".to_string());
    let long_ago = tokio::time::Instant::now()
        .checked_sub(std::time::Duration::from_secs(100))
        .unwrap();
    info.set_last_write(long_ago);
    assert!(info.idle_seconds() >= 100);
    assert_eq!(info.len(), 1);
    info.update_instant();
    assert!(info.idle_seconds() <= 1);
    assert_eq!(info.head(), Some("m".to_string()));
}

#[test]
fn channel_ids_come_in_order() {
    let mut q = MessageQueues::new();
    assert!(q.channel_ids().is_empty());
    q.queue_message("b".into(), "1".into());
    q.queue_message("a".into(), "2".into());
    q.queue_message("b".into(), "3".into());
    assert_eq!(q.channel_ids(), vec!["a".to_string(), "b".to_string()]);
    let idle = vec![0; q.channel_ids().len()];
    assert_eq!(
        q.flush_at(&vec!["b".to_string()], &idle),
        vec![("b".to_string(), "1".to_string())]
    );
}

#[test]
fn a_connected_channel_gets_its_queue_in_order() {
    let mut q = MessageQueues::new();
    for m in ["m1", "m2", "m3"] {
        q.queue_message("t".into(), m.into());
    }
    let registered = vec!["t".to_string()];
    let mut got = vec![];
    for _ in 0..3 {
        let out = q.flush_at(&registered, &vec![0]);
        assert_eq!(out.len(), 1);
        got.push(out[0].1.clone());
        q.confirm_delivery_at(&"t".to_string(), tokio::time::Instant::now());
    }
    assert_eq!(got, vec!["m1", "m2", "m3"]);
    assert!(q.flush_at(&registered, &vec![0]).is_empty());
}

#[test]
fn a_dropped_queue_stays_gone() {
    let mut q = MessageQueues::new();
    q.queue_message("t".into(), "old".into());
    let registered = vec!["t".to_string()];
    assert!(q.flush_at(&registered, &vec![MAX_IDLE_SECONDS + 1]).is_empty());
    assert!(q.channel_ids().is_empty());
    q.queue_message("t".into(), "new".into());
    assert_eq!(q.flush_at(&registered, &vec![0]), vec![("t".to_string(), "new".to_string())]);
}
