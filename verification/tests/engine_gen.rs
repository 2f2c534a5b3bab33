//! Scheduler, wire-time, view and generator tests.

use backend::auth;
use backend::engine::{Server, WakeReason};
use backend::geom::{V2, V3};
use backend::hooks::HookEvent;
use backend::msg::{Request, Response};
use backend::rle16;
use backend::terrain_gen;
use backend::terrain_gen::provider::{GenData, Provider};
use backend::timer::WakeQueue;
use backend::types::{ClientId, InputBits, ToGlobal, ToLocal};
use backend::world::ops;
use backend::world::{Data, Shape, StructureTemplate, World};

fn test_data() -> Data {
    Data {
        block_shapes: vec![Shape::Empty, Shape::Floor, Shape::Solid],
        templates: vec![StructureTemplate {
            size: V3 { x: 1, y: 1, z: 1 },
            shape: Shape::Solid,
            layer: 0,
        }],
    }
}

fn test_gen_data() -> GenData {
    GenData {
        grass_ids: vec![0, 1, 2, 0],
        cave_z0_grass_ids: vec![1u16; 81],
        cave_z0_dirt_ids: vec![2u16; 81],
        cave_z1_ids: vec![1u16; 81],
        cave_top_ids: vec![2u16; 16],
        tree_template: 10,
        rock_template: 11,
        junk_templates: vec![20, 21, 22],
    }
}

#[test]
fn wake_ordering() {
    let mut q: WakeQueue<char> = WakeQueue::new();
    q.push(100, 'a');
    q.push(50, 'b');
    q.push(100, 'c');
    assert_eq!(q.pop(200), Some((50, 'b')));
    assert_eq!(q.pop(200), Some((100, 'a')));
    assert_eq!(q.pop(200), Some((100, 'c')));
    assert_eq!(q.pop(200), None);
}

#[test]
fn wake_not_due() {
    let mut q: WakeQueue<char> = WakeQueue::new();
    q.push(100, 'a');
    assert_eq!(q.pop(99), None);
    assert_eq!(q.next_deadline(), Some(100));
}

#[test]
fn local_time_wrap() {
    let local: u16 = 65_500;
    assert_eq!(local.to_global(65_600), 65_500);
    let now: i64 = 65_600;
    assert_eq!(now.to_local(), 64);
    // scheduling clamps past wakes up to `now`
    let mut srv = Server::new(World::new(test_data()));
    srv.handle_req(65_600, ClientId(1), Request::Input(65_500, 3)).unwrap();
    let front = srv.wake_queue.pop(i64::MAX).unwrap();
    assert_eq!(front.0, 65_600);
    assert_eq!(front.1, WakeReason::HandleInput(ClientId(1), InputBits(3)));
}

#[test]
fn ping_answers_now() {
    let mut srv = Server::new(World::new(test_data()));
    srv.handle_req(65_600, ClientId(1), Request::Ping(77)).unwrap();
    assert_eq!(srv.outbox.len(), 1);
    match &srv.outbox[0] {
        (cid, Response::Pong(cookie, t)) => {
            assert_eq!(*cid, ClientId(1));
            assert_eq!(*cookie, 77);
            assert_eq!(*t, 64);
        },
        _ => panic!("expected a pong"),
    }
}

#[test]
fn view_migration() {
    let mut srv = Server::new(World::new(test_data()));
    let mut hooks: Vec<HookEvent> = Vec::new();
    let cid = ops::client_create(&mut srv.world, &mut hooks, "carol", (0, 0)).unwrap();
    let eid = ops::entity_create(&mut srv.world, &mut hooks, V3 { x: 520, y: 0, z: 0 }, 0, 0)
        .unwrap();
    ops::client_set_pawn(&mut srv.world, &mut hooks, cid, eid).unwrap();
    // the client's view starts centered on chunk (0, 0); the pawn stands in
    // chunk (1, 0), so the recheck shifts the region one column to the right
    srv.check_view(1000, cid);
    let mut unloads: Vec<u16> = Vec::new();
    let mut loads: Vec<u16> = Vec::new();
    for (to, resp) in &srv.outbox {
        assert_eq!(*to, cid);
        match resp {
            Response::UnloadChunk(idx) => unloads.push(*idx),
            Response::TerrainChunk(idx, _) => loads.push(*idx),
            _ => {},
        }
    }
    assert_eq!(unloads.len(), 7);
    assert_eq!(loads.len(), 7);
    // exited column x = -3, entered column x = 4, rows y = -3 ..= 3
    let expected_unload: Vec<u16> =
        (-3..4).map(|cy: i32| ((((cy % 8) + 8) % 8) * 8 + 5) as u16).collect();
    let expected_load: Vec<u16> =
        (-3..4).map(|cy: i32| ((((cy % 8) + 8) % 8) * 8 + 4) as u16).collect();
    assert_eq!(unloads, expected_unload);
    assert_eq!(loads, expected_load);
}

#[test]
fn generator_determinism() {
    let mut p1 = Provider::new(test_gen_data(), [1, 2, 3, 4]);
    let mut p2 = Provider::new(test_gen_data(), [1, 2, 3, 4]);
    let g1 = p1.generate(2, V2 { x: 0, y: 0 });
    let g2 = p2.generate(2, V2 { x: 0, y: 0 });
    assert_eq!(g1.blocks, g2.blocks);
    assert_eq!(g1.structures, g2.structures);
    assert_eq!(g1.blocks.len(), 4096);
    // regeneration after the caches were filled agrees too
    let g3 = p1.generate(2, V2 { x: 0, y: 0 });
    assert_eq!(g1.blocks, g3.blocks);
    assert_eq!(g1.structures, g3.structures);
}

#[test]
fn generator_differs_by_seed() {
    let mut p1 = Provider::new(test_gen_data(), [1, 2, 3, 4]);
    let mut p2 = Provider::new(test_gen_data(), [5, 6, 7, 8]);
    let g1 = p1.generate(2, V2 { x: 5, y: 9 });
    let g2 = p2.generate(2, V2 { x: 5, y: 9 });
    assert!(g1.blocks != g2.blocks || g1.structures != g2.structures);
}

#[test]
fn origin_super_height_pinned() {
    assert_eq!(terrain_gen::super_height(12345, 2, V2 { x: 0, y: 0 }), 98);
    let h = terrain_gen::super_height(12345, 2, V2 { x: 3, y: -4 });
    assert!((90..114).contains(&h));
}

#[test]
fn cutoff_formula() {
    assert_eq!(terrain_gen::cutoff(0), 100);
    assert_eq!(terrain_gen::cutoff(3), 106);
    assert_eq!(terrain_gen::cutoff(7), 114);
}

#[test]
fn entrance_constants() {
    assert_eq!(terrain_gen::provider::ENTRANCE_PATTERN, 0b_00_01_01_00 << 10);
    assert_eq!(
        terrain_gen::provider::ENTRANCE_MASK,
        (0b_10_11_11_10 << 10) | 0b_11_11_11_11
    );
    assert_eq!(terrain_gen::OUTSIDE_KEY, 40);
}

#[test]
fn rle16_round_trip() {
    let blocks: Vec<u16> = vec![7, 7, 7, 9, 9, 0, 0, 0, 0, 1];
    let encoded = rle16::rle16_encode(&blocks);
    assert_eq!(rle16::rle16_decode(&encoded), Some(blocks));
    let empty: Vec<u16> = Vec::new();
    let enc2 = rle16::rle16_encode(&empty);
    assert_eq!(rle16::rle16_decode(&enc2), Some(empty));
    assert_eq!(rle16::rle16_decode(&vec![1, 2, 3]), None);
}

#[test]
fn secret_hash_verifies() {
    let secret: auth::Secret = [1, 2, 3, 4];
    let stored = auth::hash_secret_with(&secret, 77, 99);
    assert_eq!(stored.len(), 52);
    assert!(stored.starts_with("0;"));
    assert_eq!(auth::check_secret(&secret, &stored), auth::SecretMatch::Yes);
    assert_eq!(auth::check_secret(&[1, 2, 3, 5], &stored), auth::SecretMatch::No);
    assert_eq!(auth::check_secret(&secret, "junk"), auth::SecretMatch::No);
}

#[test]
fn repeated_login_accepted() {
    let secret: auth::Secret = [9, 9, 9, 9];
    let stored = auth::hash_secret(&secret);
    let first = auth::login_decision(&secret, Some(&stored));
    let second = auth::login_decision(&secret, Some(&stored));
    assert_eq!(first, auth::LoginOutcome::Accepted);
    assert_eq!(second, auth::LoginOutcome::Accepted);
    assert_eq!(auth::login_decision(&secret, None), auth::LoginOutcome::Denied);
}

#[test]
fn login_creates_client_and_arms_view_check() {
    let mut srv = Server::new(World::new(test_data()));
    srv.handle_req(1000, ClientId(0), Request::Login([0, 0, 0, 0], String::from("dave")))
        .unwrap();
    assert!(srv.world.get_client(ClientId(0)).is_some());
    let wake = srv.wake_queue.pop(i64::MAX).unwrap();
    assert_eq!(wake.0, 2000);
    assert!(matches!(wake.1, WakeReason::CheckView(_)));
}

#[test]
fn remove_client_tears_down() {
    let mut srv = Server::new(World::new(test_data()));
    srv.handle_req(1000, ClientId(0), Request::Login([0, 0, 0, 0], String::from("erin")))
        .unwrap();
    srv.outbox.clear();
    srv.handle_req(2000, ClientId(0), Request::RemoveClient).unwrap();
    assert!(srv.world.get_client(ClientId(0)).is_none());
    assert!(matches!(srv.outbox.last(), Some((_, Response::ClientRemoved))));
}
