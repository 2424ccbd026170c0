use turbowire::connection::{
    frame_action, step, ConnectionAction, ConnectionEvent, FrameAction, FrameKind, Phase,
};

#[test]
fn connection_happy_path() {
    let (p, a) = step(Phase::Probing, ConnectionEvent::PingSent);
    assert_eq!((p, a), (Phase::Registering, ConnectionAction::Register));
    let (p, a) = step(p, ConnectionEvent::Registered);
    assert_eq!((p, a), (Phase::Running, ConnectionAction::StartTasks));
    let (p, a) = step(p, ConnectionEvent::TaskEnded);
    assert_eq!((p, a), (Phase::Closing, ConnectionAction::AbortAndCleanUp));
    let (p, a) = step(p, ConnectionEvent::CleanedUp);
    assert_eq!((p, a), (Phase::Terminal, ConnectionAction::Close));
}

#[test]
fn failed_ping_ends_without_cleanup() {
    assert_eq!(
        step(Phase::Probing, ConnectionEvent::PingFailed),
        (Phase::Terminal, ConnectionAction::Close)
    );
}

#[test]
fn unexpected_events_are_ignored() {
    assert_eq!(
        step(Phase::Running, ConnectionEvent::PingSent),
        (Phase::Running, ConnectionAction::Ignore)
    );
    assert_eq!(
        step(Phase::Terminal, ConnectionEvent::TaskEnded),
        (Phase::Terminal, ConnectionAction::Ignore)
    );
}

#[test]
fn frame_actions() {
    assert_eq!(frame_action(FrameKind::Text, true), FrameAction::ForwardToWebhook);
    assert_eq!(frame_action(FrameKind::Text, false), FrameAction::Continue);
    assert_eq!(frame_action(FrameKind::Close, true), FrameAction::Stop);
    assert_eq!(frame_action(FrameKind::Binary, true), FrameAction::Continue);
    assert_eq!(frame_action(FrameKind::Ping, false), FrameAction::Continue);
    assert_eq!(frame_action(FrameKind::Pong, true), FrameAction::Continue);
}
