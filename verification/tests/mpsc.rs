use panama::mpsc::channel;

#[test]
fn ping_pong() {
    let (mut tx, mut rx) = channel();
    tx.send(42);
    assert_eq!(rx.recv(), Some(42))
}

#[test]
fn closed_tx() {
    let (tx, mut rx) = channel::<()>();
    drop(tx);
    assert_eq!(rx.recv(), None);
}

#[test]
fn closed_rx() {
    let (mut tx, rx) = channel();
    drop(rx);
    tx.send(42);
}

#[test]
fn fifo_order() {
    let (mut tx, mut rx) = channel();
    tx.send(1);
    tx.send(2);
    tx.send(3);
    assert_eq!(rx.recv(), Some(1));
    assert_eq!(rx.recv(), Some(2));
    assert_eq!(rx.recv(), Some(3));
}

#[test]
fn bulk_drain_stays_closed() {
    let (mut tx, mut rx) = channel();
    let mut v: i32 = 0;
    while v < 10 {
        tx.send(v);
        v += 1;
    }
    drop(tx);
    let mut w: i32 = 0;
    while w < 10 {
        assert_eq!(rx.recv(), Some(w));
        w += 1;
    }
    assert_eq!(rx.recv(), None);
    assert_eq!(rx.recv(), None);
}

#[test]
fn multi_sender_accounting() {
    let (tx, mut rx) = channel();
    let mut tx2 = tx.clone();
    let tx3 = tx.clone();
    drop(tx);
    drop(tx3);
    tx2.send(7);
    assert_eq!(rx.recv(), Some(7));
    drop(tx2);
    assert_eq!(rx.recv(), None);
}

#[test]
fn interleaved_senders_keep_lock_order() {
    let (mut a, mut rx) = channel();
    let mut b = a.clone();
    a.send(1);
    b.send(10);
    a.send(2);
    b.send(20);
    drop(a);
    drop(b);
    assert_eq!(rx.recv(), Some(1));
    assert_eq!(rx.recv(), Some(10));
    assert_eq!(rx.recv(), Some(2));
    assert_eq!(rx.recv(), Some(20));
    assert_eq!(rx.recv(), None);
}
