use mapsdk::fetch::{FetchQueue, HttpRequest};
use mapsdk::tiling::TileId;

fn request_for(x: i32) -> HttpRequest<TileId> {
    HttpRequest::Get {
        id: TileId { z: 1, x, y: 0 },
        url: format!("http://tiles.example/1/{}/0.png", x),
        headers: Vec::new(),
    }
}

#[test]
fn cancellation_leaves_the_others() {
    let mut q = FetchQueue::new();
    for x in 0..10 {
        assert!(q.send(request_for(x)));
    }
    assert_eq!(q.pending_count(), 10);
    for x in 0..5 {
        q.cancel(&TileId { z: 1, x, y: 0 });
    }
    assert_eq!(q.pending_count(), 5);
    // exactly the other five dispatch, most recently submitted first
    for x in (5..10).rev() {
        let r = q.pop_next().expect("five requests left");
        assert_eq!(r.id(), TileId { z: 1, x, y: 0 });
    }
    assert!(q.pop_next().is_none());
}

#[test]
fn cancelling_an_absent_key_is_a_no_op() {
    let mut q = FetchQueue::new();
    q.send(request_for(1));
    q.send(request_for(2));
    q.cancel(&TileId { z: 9, x: 9, y: 9 });
    assert_eq!(q.pending_count(), 2);
}

#[test]
fn freshest_request_is_served_first() {
    let mut q = FetchQueue::new();
    q.send(request_for(1));
    q.send(request_for(2));
    q.send(request_for(3));
    assert_eq!(q.pop_next().unwrap().id(), TileId { z: 1, x: 3, y: 0 });
    assert_eq!(q.pop_next().unwrap().id(), TileId { z: 1, x: 2, y: 0 });
    assert_eq!(q.pop_next().unwrap().id(), TileId { z: 1, x: 1, y: 0 });
}

#[test]
fn resending_a_key_refreshes_without_duplicating() {
    let mut q = FetchQueue::new();
    q.send(request_for(1));
    q.send(request_for(2));
    q.send(request_for(1));
    assert_eq!(q.pending_count(), 2);
    // the re-sent key took the freshest place
    assert_eq!(q.pop_next().unwrap().id(), TileId { z: 1, x: 1, y: 0 });
    assert_eq!(q.pop_next().unwrap().id(), TileId { z: 1, x: 2, y: 0 });
    assert!(q.pop_next().is_none());
}
