use link_dispatch::dispatch::{aggregate, DispatchOutcome, DispatchState};
use link_dispatch::registry::{LinkConfig, LinkDirection, LinkRegistry, PeerTable};

const SENTINEL: &str = "No components responded to request";

fn config_of(pairs: &[(&str, &str)]) -> LinkConfig {
    let mut c = LinkConfig::new();
    for (k, v) in pairs {
        c.set(k.to_string(), v.to_string());
    }
    c
}

/// One fan-out round over a snapshot, the way the runtime drives it:
/// attempt each peer in iteration order, fold the outcomes, and also
/// report which peers were contacted.
fn dispatch_round<F>(snap: &PeerTable, send: F) -> (String, Vec<String>)
where
    F: Fn(&str) -> Result<String, String>,
{
    let mut contacted = Vec::new();
    let mut state = DispatchState::new();
    let ids = snap.peer_ids();
    for peer in &ids {
        contacted.push(peer.clone());
        match send(peer) {
            Ok(resp) => state.record(&DispatchOutcome::Success(resp)),
            Err(e) => state.record(&DispatchOutcome::Failure(e)),
        }
    }
    (state.finish(), contacted)
}

#[test]
fn empty_round_returns_sentinel() {
    let outcomes: Vec<DispatchOutcome> = Vec::new();
    assert_eq!(aggregate(&outcomes), SENTINEL);

    let reg = LinkRegistry::new();
    let snap = reg.snapshot(LinkDirection::ToPeer);
    let (resp, contacted) = dispatch_round(&snap, |_| Ok("never".to_string()));
    assert_eq!(resp, SENTINEL);
    assert!(contacted.is_empty());
}

#[test]
fn all_failures_return_sentinel() {
    let outcomes = vec![
        DispatchOutcome::Failure("down".to_string()),
        DispatchOutcome::Failure("timeout".to_string()),
    ];
    assert_eq!(aggregate(&outcomes), SENTINEL);
}

#[test]
fn sole_success_wins() {
    let outcomes = vec![
        DispatchOutcome::Failure("down".to_string()),
        DispatchOutcome::Success("R1".to_string()),
        DispatchOutcome::Failure("timeout".to_string()),
    ];
    assert_eq!(aggregate(&outcomes), "R1");
}

#[test]
fn sole_success_via_registry_round() {
    let mut reg = LinkRegistry::new();
    reg.put_link(LinkDirection::ToPeer, "a".to_string(), config_of(&[]));
    reg.put_link(LinkDirection::ToPeer, "b".to_string(), config_of(&[]));
    reg.put_link(LinkDirection::ToPeer, "c".to_string(), config_of(&[]));
    let snap = reg.snapshot(LinkDirection::ToPeer);
    let (resp, contacted) = dispatch_round(&snap, |peer| {
        if peer == "b" {
            Ok("R1".to_string())
        } else {
            Err("unreachable".to_string())
        }
    });
    assert_eq!(resp, "R1");
    assert_eq!(contacted, vec!["a", "b", "c"]);
}

#[test]
fn last_success_in_iteration_order_wins() {
    // Iteration order is insertion order: "a" was linked before "b", so
    // when both succeed the round answers "b"'s response.
    let mut reg = LinkRegistry::new();
    reg.put_link(LinkDirection::ToPeer, "a".to_string(), config_of(&[]));
    reg.put_link(LinkDirection::ToPeer, "b".to_string(), config_of(&[]));
    let snap = reg.snapshot(LinkDirection::ToPeer);
    let (resp, _) = dispatch_round(&snap, |peer| Ok(format!("resp-{peer}")));
    assert_eq!(resp, "resp-b");

    let outcomes = vec![
        DispatchOutcome::Success("from-a".to_string()),
        DispatchOutcome::Success("from-b".to_string()),
    ];
    assert_eq!(aggregate(&outcomes), "from-b");
}

#[test]
fn removed_peer_is_never_contacted() {
    let mut reg = LinkRegistry::new();
    reg.put_link(LinkDirection::ToPeer, "x".to_string(), config_of(&[("u", "1")]));
    reg.put_link(LinkDirection::ToPeer, "y".to_string(), config_of(&[]));
    reg.remove_link(LinkDirection::ToPeer, &"x".to_string());
    let snap = reg.snapshot(LinkDirection::ToPeer);
    let (_, contacted) = dispatch_round(&snap, |_| Ok("ok".to_string()));
    assert!(!contacted.contains(&"x".to_string()));
    assert_eq!(contacted, vec!["y"]);
    assert!(!snap.contains(&"x".to_string()));
}

#[test]
fn relink_replaces_config() {
    let mut reg = LinkRegistry::new();
    reg.put_link(
        LinkDirection::ToPeer,
        "a".to_string(),
        config_of(&[("mode", "old"), ("only-old", "1")]),
    );
    reg.put_link(LinkDirection::ToPeer, "a".to_string(), config_of(&[("mode", "new")]));
    let snap = reg.snapshot(LinkDirection::ToPeer);
    assert_eq!(snap.len(), 1);
    let cfg = snap.get(&"a".to_string()).expect("a is linked");
    assert_eq!(cfg.get(&"mode".to_string()), Some(&"new".to_string()));
    // Replace, not merge: the old key is gone.
    assert_eq!(cfg.get(&"only-old".to_string()), None);
}

#[test]
fn relink_keeps_iteration_position() {
    let mut reg = LinkRegistry::new();
    reg.put_link(LinkDirection::ToPeer, "a".to_string(), config_of(&[]));
    reg.put_link(LinkDirection::ToPeer, "b".to_string(), config_of(&[]));
    reg.put_link(LinkDirection::ToPeer, "a".to_string(), config_of(&[("v", "2")]));
    let snap = reg.snapshot(LinkDirection::ToPeer);
    assert_eq!(snap.peer_ids(), vec!["a", "b"]);
}

#[test]
fn directions_are_independent() {
    let mut reg = LinkRegistry::new();
    reg.put_link(LinkDirection::FromPeer, "caller".to_string(), config_of(&[]));
    let to = reg.snapshot(LinkDirection::ToPeer);
    assert_eq!(to.len(), 0);
    let from = reg.snapshot(LinkDirection::FromPeer);
    assert_eq!(from.len(), 1);
    assert_eq!(from.peer_at(0).as_str(), "caller");

    reg.remove_link(LinkDirection::ToPeer, &"caller".to_string());
    let from_again = reg.snapshot(LinkDirection::FromPeer);
    assert!(from_again.contains(&"caller".to_string()));
}

#[test]
fn remove_of_unlinked_peer_is_a_noop() {
    let mut reg = LinkRegistry::new();
    reg.put_link(LinkDirection::ToPeer, "a".to_string(), config_of(&[]));
    reg.remove_link(LinkDirection::ToPeer, &"ghost-peer".to_string());
    let snap = reg.snapshot(LinkDirection::ToPeer);
    assert_eq!(snap.peer_ids(), vec!["a"]);
}

#[test]
fn snapshot_is_untouched_by_later_writes() {
    let mut reg = LinkRegistry::new();
    reg.put_link(LinkDirection::ToPeer, "a".to_string(), config_of(&[("k", "v")]));
    let snap = reg.snapshot(LinkDirection::ToPeer);
    reg.remove_link(LinkDirection::ToPeer, &"a".to_string());
    reg.put_link(LinkDirection::ToPeer, "b".to_string(), config_of(&[]));
    // The copy still shows the state at the instant of the call.
    assert_eq!(snap.peer_ids(), vec!["a"]);
    let cfg = snap.get(&"a".to_string()).expect("a was linked then");
    assert_eq!(cfg.get(&"k".to_string()), Some(&"v".to_string()));
    // And the registry moved on.
    assert_eq!(reg.snapshot(LinkDirection::ToPeer).peer_ids(), vec!["b"]);
}

#[test]
fn config_set_replaces_value() {
    let mut c = LinkConfig::new();
    c.set("k".to_string(), "v1".to_string());
    c.set("k".to_string(), "v2".to_string());
    assert_eq!(c.get(&"k".to_string()), Some(&"v2".to_string()));
    assert_eq!(c.get(&"missing".to_string()), None);
}

#[test]
fn incremental_fold_matches_aggregate() {
    let outcomes = vec![
        DispatchOutcome::Failure("a down".to_string()),
        DispatchOutcome::Success("first".to_string()),
        DispatchOutcome::Failure("c down".to_string()),
        DispatchOutcome::Success("second".to_string()),
        DispatchOutcome::Failure("e down".to_string()),
    ];
    let mut state = DispatchState::new();
    for o in &outcomes {
        state.record(o);
    }
    assert_eq!(state.finish(), "second");
    assert_eq!(aggregate(&outcomes), "second");
}

#[test]
fn interleaved_writes_and_snapshots_stay_consistent() {
    // A sequential schedule of puts, removes and snapshots: every
    // snapshot shows exactly the serialization of the calls before it.
    let mut reg = LinkRegistry::new();
    let mut expected: Vec<&str> = Vec::new();
    let names = ["p0", "p1", "p2", "p3", "p4", "p5", "p6", "p7"];
    for round in 0..names.len() {
        reg.put_link(LinkDirection::ToPeer, names[round].to_string(), config_of(&[]));
        expected.push(names[round]);
        if round % 3 == 2 {
            let victim = names[round / 3];
            reg.remove_link(LinkDirection::ToPeer, &victim.to_string());
            expected.retain(|p| *p != victim);
        }
        let snap = reg.snapshot(LinkDirection::ToPeer);
        assert_eq!(snap.peer_ids(), expected);
    }
}
