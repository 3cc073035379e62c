use dbsp::exchange::Exchange;

#[test]
fn test_exchange() {
    const WORKERS: usize = 16;
    const ROUNDS: usize = 2048;
    let mut exchange = Exchange::<usize>::new(WORKERS);
    for round in 0..ROUNDS {
        let output_data = vec![round; WORKERS];
        for worker in 0..WORKERS {
            let mut data = output_data.clone();
            assert!(exchange.try_send_all(worker, &mut data));
            assert!(data.is_empty());
        }
        for worker in 0..WORKERS {
            assert!(exchange.ready_to_receive(worker));
            let input_data = exchange.try_receive_all(worker).unwrap();
            assert_eq!(input_data, output_data);
        }
    }
}

#[test]
fn exchange_delivers_in_sender_order() {
    let mut ex = Exchange::<(usize, usize)>::new(3);
    for s in [2usize, 0, 1] {
        let mut data: Vec<(usize, usize)> = (0..3).map(|r| (s, r)).collect();
        assert!(ex.try_send_all(s, &mut data));
    }
    for r in 0..3 {
        assert_eq!(ex.try_receive_all(r).unwrap(), vec![(0, r), (1, r), (2, r)]);
    }
}

#[test]
fn exchange_backpressure() {
    let mut ex = Exchange::<u32>::new(2);
    let mut d = vec![1, 2];
    assert!(ex.try_send_all(0, &mut d));
    // the previous round is not drained: the sender must wait
    assert!(!ex.ready_to_send(0));
    let mut again = vec![3, 4];
    assert!(!ex.try_send_all(0, &mut again));
    assert_eq!(again, vec![3, 4]);
    // receiver 0 lacks a value from sender 1
    assert!(!ex.ready_to_receive(0));
    assert_eq!(ex.try_receive_all(0), None);
    let mut d1 = vec![5, 6];
    assert!(ex.try_send_all(1, &mut d1));
    assert_eq!(ex.try_receive_all(0), Some(vec![1, 5]));
    // receiver 1 still holds values of both senders
    assert!(!ex.ready_to_send(0));
    assert!(!ex.ready_to_send(1));
    assert_eq!(ex.try_receive_all(1), Some(vec![2, 6]));
    assert!(ex.ready_to_send(0));
    assert!(ex.ready_to_send(1));
    assert!(ex.try_send_all(0, &mut again));
}
