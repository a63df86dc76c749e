use zlack::notifications::NotificationActivation;
use zlack::pending::{
    cleanup_pending_notifications, cleanup_wait, dispatch_pending_notification,
    local_notification_id, register_pending_notification, remove_due_notifications,
    remove_pending_notification, respond_to_notification, update_notification_context,
    CleanupDeadlines, CleanupEvent, CleanupSchedule, CleanupWait, PendingNotifications,
    PENDING_RETENTION,
};

fn activation(id: &str) -> NotificationActivation {
    NotificationActivation::new(id.to_string(), Some("T1".to_string()), None)
}

#[test]
fn a_click_delivers_what_was_registered() {
    let mut store: PendingNotifications<u32> = PendingNotifications::new();
    let (id, schedule) = register_pending_notification(&mut store, 7, "main".to_string(), activation("n1"), 1_000);
    assert_eq!(id, "n1");
    assert_eq!(schedule.deadline(), 1_000 + PENDING_RETENTION);
    assert_eq!(schedule.notification_id(), "n1");
    assert_eq!(schedule.created_at(), 1_000);
    let pending = dispatch_pending_notification(&mut store, "n1", 2_000).expect("still pending");
    assert_eq!(pending.app_handle, 7);
    assert_eq!(pending.origin_label, "main");
    assert_eq!(pending.created_at, 1_000);
    assert_eq!(pending.activation.notification_id(), "n1");
    assert!(!store.contains("n1"));
    assert!(dispatch_pending_notification(&mut store, "n1", 2_000).is_none());
}

#[test]
fn expired_and_removed_notifications_are_not_delivered() {
    let mut store: PendingNotifications<u32> = PendingNotifications::new();
    register_pending_notification(&mut store, 1, "main".to_string(), activation("old"), 0);
    assert!(dispatch_pending_notification(&mut store, "old", PENDING_RETENTION).is_none());
    register_pending_notification(&mut store, 1, "main".to_string(), activation("gone"), 0);
    remove_pending_notification(&mut store, "gone");
    assert!(dispatch_pending_notification(&mut store, "gone", 1).is_none());
    register_pending_notification(&mut store, 1, "main".to_string(), activation("edge"), 0);
    assert!(dispatch_pending_notification(&mut store, "edge", PENDING_RETENTION - 1).is_some());
}

#[test]
fn late_context_updates_a_pending_notification() {
    let mut store: PendingNotifications<u32> = PendingNotifications::new();
    let a = NotificationActivation::new("n2".to_string(), None, None);
    register_pending_notification(&mut store, 3, "w".to_string(), a, 10);
    update_notification_context(&mut store, "n2", Some(" T9 ".to_string()), Some("D1".to_string()), 20);
    update_notification_context(&mut store, "absent", Some("T0".to_string()), None, 20);
    let pending = dispatch_pending_notification(&mut store, "n2", 30).unwrap();
    assert_eq!(
        pending.activation.target_url().as_deref(),
        Some("https://app.slack.com/client/T9/D1")
    );
    assert_eq!(pending.origin_label, "w");
}

#[test]
fn responses_deliver_on_click_and_forget_otherwise() {
    let mut store: PendingNotifications<u32> = PendingNotifications::new();
    register_pending_notification(&mut store, 1, "a".to_string(), activation("x"), 0);
    register_pending_notification(&mut store, 1, "a".to_string(), activation("y"), 0);
    assert!(respond_to_notification(&mut store, "x", false, 1).is_none());
    assert!(!store.contains("x"));
    assert!(respond_to_notification(&mut store, "y", true, 1).is_some());
}

#[test]
fn cleanup_drops_only_the_registration_it_was_scheduled_for() {
    let mut store: PendingNotifications<u32> = PendingNotifications::new();
    let mut deadlines = CleanupDeadlines::new();
    let (_, first) = register_pending_notification(&mut store, 1, "a".to_string(), activation("n"), 0);
    deadlines.push(first);
    // The same id is shown again later; the earlier schedule must spare it.
    let (_, second) = register_pending_notification(&mut store, 1, "a".to_string(), activation("n"), 5);
    deadlines.push(second);
    let (_, other) = register_pending_notification(&mut store, 1, "a".to_string(), activation("m"), 1);
    deadlines.push(other);
    remove_due_notifications(&mut deadlines, &mut store, PENDING_RETENTION + 1);
    assert!(store.contains("n"));
    assert!(!store.contains("m"));
    assert_eq!(deadlines.len(), 1);
    assert!(matches!(cleanup_wait(&deadlines), CleanupWait::Until(d) if d == PENDING_RETENTION + 5));
}

#[test]
fn the_cleanup_worker_follows_its_events() {
    let mut store: PendingNotifications<u32> = PendingNotifications::new();
    let mut deadlines = CleanupDeadlines::new();
    assert!(matches!(cleanup_wait(&deadlines), CleanupWait::Forever));
    let (_, s) = register_pending_notification(&mut store, 1, "a".to_string(), activation("k"), 100);
    assert!(cleanup_pending_notifications(&mut deadlines, &mut store, CleanupEvent::Scheduled(s), 100));
    let early = CleanupSchedule::new("z".to_string(), 0);
    assert_eq!(early.deadline(), PENDING_RETENTION);
    assert!(cleanup_pending_notifications(&mut deadlines, &mut store, CleanupEvent::Scheduled(early), 100));
    assert!(matches!(cleanup_wait(&deadlines), CleanupWait::Until(d) if d == PENDING_RETENTION));
    assert!(cleanup_pending_notifications(
        &mut deadlines,
        &mut store,
        CleanupEvent::TimedOut,
        PENDING_RETENTION + 10
    ));
    assert_eq!(deadlines.len(), 1);
    assert!(store.contains("k"));
    assert!(cleanup_pending_notifications(
        &mut deadlines,
        &mut store,
        CleanupEvent::TimedOut,
        100 + PENDING_RETENTION
    ));
    assert!(!store.contains("k"));
    assert!(!cleanup_pending_notifications(&mut deadlines, &mut store, CleanupEvent::Disconnected, 0));
}

#[test]
fn local_notification_ids_are_numbered() {
    assert_eq!(local_notification_id(0), "zlack-local-0");
    assert_eq!(local_notification_id(42), "zlack-local-42");
}

#[test]
fn a_stale_cleanup_spares_a_newer_registration() {
    let mut store: PendingNotifications<u32> = PendingNotifications::new();
    let mut deadlines = CleanupDeadlines::new();
    let (_, stale) = register_pending_notification(&mut store, 1, "a".to_string(), activation("n"), 0);
    deadlines.push(stale);
    let later = PENDING_RETENTION / 2;
    register_pending_notification(&mut store, 2, "b".to_string(), activation("n"), later);
    // The first registration's deadline has passed, the second's has not.
    remove_due_notifications(&mut deadlines, &mut store, PENDING_RETENTION);
    assert_eq!(deadlines.len(), 0);
    let pending = dispatch_pending_notification(&mut store, "n", PENDING_RETENTION).expect("kept");
    assert_eq!(pending.created_at, later);
    assert_eq!(pending.app_handle, 2);
}
