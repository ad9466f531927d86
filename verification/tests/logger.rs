use nsa::logger::{
    boot_tasks, channel_rows, BootGuard, message_times, pin_diff, resolve_emoji, ChannelLookup, EmojiKind,
    MAX_UNIX_SECONDS, MIN_UNIX_SECONDS,
};

#[test]
fn message_times_default_and_fall_back() {
    let t = message_times(1431648000, None).unwrap();
    assert_eq!((t.sent, t.edited), (1431648000, 1431648000));
    let t = message_times(1431648000, Some(1431648060)).unwrap();
    assert_eq!(t.edited, 1431648060);
    // an out-of-range edit time falls back to the sent time
    let t = message_times(1431648000, Some(i64::MAX)).unwrap();
    assert_eq!(t.edited, 1431648000);
    // an out-of-range sent time skips the message
    assert!(message_times(i64::MAX, None).is_none());
    assert!(message_times(i64::MIN, Some(0)).is_none());
}

#[test]
fn channel_rows_per_lookup() {
    let r = channel_rows(&ChannelLookup::Guild { guild_id: 3, name: "general".to_string() }, 10, 99, None);
    assert_eq!(r.guild, Some(3));
    assert_eq!(r.channel.name.as_deref(), Some("general"));
    assert_eq!(r.channel.guild_id, Some(3));
    assert_eq!((r.channel.id, r.channel.first_message_id, r.channel.last_message_id), (10, 99, 99));

    let r = channel_rows(&ChannelLookup::Other, 10, 99, Some(3));
    assert_eq!(r.guild, None);
    assert_eq!(r.channel.guild_id, None);

    let r = channel_rows(&ChannelLookup::Failed, 10, 99, Some(3));
    assert_eq!(r.guild, Some(3));
    assert_eq!(r.channel.name, None);
    assert_eq!(r.channel.guild_id, Some(3));
}

#[test]
fn emoji_resolution() {
    let e = resolve_emoji(&EmojiKind::Custom { id: 1234, name: Some("blob".to_string()) }).unwrap();
    assert_eq!((e.id, e.name.as_str()), (Some(1234), "blob"));
    let e = resolve_emoji(&EmojiKind::Custom { id: 1234, name: None }).unwrap();
    assert_eq!((e.id, e.name.as_str()), (Some(1234), "1234"));
    let e = resolve_emoji(&EmojiKind::Unicode("👀".to_string())).unwrap();
    assert_eq!((e.id, e.name.as_str()), (None, "👀"));
    assert!(resolve_emoji(&EmojiKind::Other).is_none());
}

#[test]
fn pin_diff_adds_and_removes() {
    let d = pin_diff(&vec![1, 2, 3], &vec![4, 2, 5]);
    assert_eq!(d.added, vec![4, 5]);
    assert_eq!(d.removed, vec![1, 3]);
}

#[test]
fn pin_diff_of_same_set_is_empty() {
    let d = pin_diff(&vec![1, 2, 3], &vec![3, 1, 2]);
    assert!(d.added.is_empty());
    assert!(d.removed.is_empty());
    let d = pin_diff(&vec![1, 1, 2], &vec![]);
    assert_eq!(d.removed, vec![1, 2]);
}

#[test]
fn boot_tasks_start_once() {
    let t = boot_tasks(false, None, true);
    assert!(t.backfill && t.drain);
    let t = boot_tasks(false, Some("1"), false);
    assert!(!t.backfill && !t.drain);
    let t = boot_tasks(true, None, true);
    assert!(!t.backfill && !t.drain);
}

#[test]
fn boot_guard_starts_tasks_on_the_first_ready_only() {
    let mut g = BootGuard::new();
    assert!(!g.started());
    let t = g.on_ready(None, true);
    assert!(t.backfill && t.drain);
    assert!(g.started());
    let t = g.on_ready(None, true);
    assert!(!t.backfill && !t.drain);

    let mut g = BootGuard::new();
    let t = g.on_ready(Some("1"), false);
    assert!(!t.backfill && !t.drain);
    let t = g.on_ready(None, true);
    assert!(!t.backfill && !t.drain);
}

#[test]
fn message_times_accept_exactly_chronos_range() {
    assert!(message_times(MIN_UNIX_SECONDS, None).is_some());
    assert!(message_times(MAX_UNIX_SECONDS, None).is_some());
    assert!(message_times(MIN_UNIX_SECONDS - 1, None).is_none());
    assert!(message_times(MAX_UNIX_SECONDS + 1, None).is_none());
    let t = message_times(0, Some(MAX_UNIX_SECONDS + 1)).unwrap();
    assert_eq!(t.edited, 0);
}
