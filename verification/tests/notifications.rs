use zlack::notifications::{
    activation_fallback, activation_payload_json, activation_script, compose_activation_script,
    usable_context_value, ActivationFallback, NotificationActivation,
};

#[test]
fn builds_channel_fallback_only_with_valid_context() {
    let channel = NotificationActivation::new(
        "notification-1".to_string(),
        Some("T123".to_string()),
        Some("C456".to_string()),
    );
    let workspace = NotificationActivation::new(
        "notification-2".to_string(),
        Some("T123".to_string()),
        None,
    );
    let unknown = NotificationActivation::new("notification-3".to_string(), None, None);

    assert_eq!(
        channel.target_url().as_deref(),
        Some("https://app.slack.com/client/T123/C456")
    );
    assert_eq!(
        workspace.target_url().as_deref(),
        Some("https://app.slack.com/client/T123")
    );
    assert_eq!(unknown.target_url(), None);
}

#[test]
fn serializes_activation_for_the_originating_preload() {
    let activation = NotificationActivation::new(
        "notification-\"quoted".to_string(),
        Some("T123".to_string()),
        Some("D456".to_string()),
    );

    let script = activation_script(&activation).expect("activation serializes");

    assert!(script.contains("window.__ZlackActivateNotification"));
    assert!(script.contains(r#""notificationId":"notification-\"quoted""#));
    assert!(script.contains(r#""teamId":"T123""#));
    assert!(script.contains(r#""channelId":"D456""#));
    assert!(script.contains("window.location.href"));
    assert!(script.contains("https://app.slack.com/client/T123/D456"));
}

#[test]
fn updates_a_pending_activation_with_late_context() {
    let mut activation = NotificationActivation::new("notification-1".to_string(), None, None);

    activation.update_context(Some("T123".to_string()), Some("D456".to_string()));

    assert_eq!(
        activation.target_url().as_deref(),
        Some("https://app.slack.com/client/T123/D456")
    );
}

#[test]
fn context_values_are_trimmed_and_unknown_is_dropped() {
    assert_eq!(usable_context_value(Some("  T1 \n".to_string())), Some("T1".to_string()));
    assert_eq!(usable_context_value(Some("unknown".to_string())), None);
    assert_eq!(usable_context_value(Some(" unknown ".to_string())), None);
    assert_eq!(usable_context_value(Some("   ".to_string())), None);
    assert_eq!(usable_context_value(Some("Unknown".to_string())), Some("Unknown".to_string()));
    assert_eq!(usable_context_value(None), None);
}

#[test]
fn cleaning_context_twice_changes_nothing() {
    let once = usable_context_value(Some("\t C9 ".to_string()));
    let twice = usable_context_value(once.clone());
    assert_eq!(once, twice);
    let a = NotificationActivation::new("n".to_string(), Some(" T ".to_string()), Some("x".to_string()));
    let rebuilt = NotificationActivation::new(
        a.notification_id().to_string(),
        a.team_id().map(str::to_string),
        a.channel_id().map(str::to_string),
    );
    assert_eq!(rebuilt.team_id(), a.team_id());
    assert_eq!(rebuilt.channel_id(), a.channel_id());
}

#[test]
fn a_channel_without_a_team_gives_no_url() {
    let a = NotificationActivation::new("n".to_string(), Some("unknown".to_string()), Some("C1".to_string()));
    assert_eq!(a.target_url(), None);
    assert_eq!(a.channel_id(), Some("C1"));
}

#[test]
fn script_without_team_falls_back_to_null() {
    let a = NotificationActivation::new("id-7".to_string(), None, None);
    let script = activation_script(&a).unwrap();
    assert!(script.contains(r#"{"notificationId":"id-7","teamId":null,"channelId":null}"#));
    assert!(script.ends_with(", null);"));
}

#[test]
fn script_parts_are_composed_in_order() {
    assert_eq!(
        activation_payload_json("\"a\"", "null", "\"c\""),
        r#"{"notificationId":"a","teamId":null,"channelId":"c"}"#
    );
    let script = compose_activation_script("P", "F");
    assert!(script.starts_with("(function(payload, fallbackUrl) {"));
    assert!(script.ends_with("})(P, F);"));
}

#[test]
fn fallback_switches_workspace_or_restores_the_window() {
    let a = NotificationActivation::new("n".to_string(), Some("T1".to_string()), None);
    match activation_fallback(&a) {
        ActivationFallback::SwitchWorkspace { team_id, target_url } => {
            assert_eq!(team_id, "T1");
            assert_eq!(target_url.as_deref(), Some("https://app.slack.com/client/T1"));
        }
        ActivationFallback::RestoreActiveWindow => panic!("expected a workspace switch"),
    }
    let b = NotificationActivation::new("n".to_string(), None, Some("C1".to_string()));
    assert!(matches!(activation_fallback(&b), ActivationFallback::RestoreActiveWindow));
}

#[test]
fn activation_fields_are_escaped_as_json_strings() {
    let activation = NotificationActivation::new(
        "a\tb\u{1}c\\d".to_string(),
        None,
        None,
    );
    let script = activation_script(&activation).unwrap();
    assert!(script.contains(r#""notificationId":"a\tb\u0001c\\d""#));
    assert!(script.contains(r#""teamId":null"#));
    assert!(script.ends_with(", null);"));
}
