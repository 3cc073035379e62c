use dbsp::layer::{FileColumnLayerCursor, LayerError, Writer};

#[test]
fn test() {
    let mut layer_file = Writer::<i32, u64>::new(2);
    let end = 1000_i32;
    let range = (0..end).step_by(2);
    let c2range = (0..14_i32).step_by(2);
    let a1 = 0x1111_u64;
    let a2 = 0x2222_u64;
    for i in range.clone() {
        for j in c2range.clone() {
            layer_file.write(1, j, a2).unwrap();
        }
        layer_file.write(0, i, a1).unwrap();
    }
    let reader = layer_file.close().unwrap();

    for i in range.clone() {
        let mut cursor = reader.rows().first();
        cursor.advance_to_value_or_larger(&i);
        assert_eq!(cursor.item(), Some((i, a1)));

        let mut cursor = reader.rows().first();
        cursor.advance_to_value_or_larger(&(i - 1));
        assert_eq!(cursor.item(), Some((i, a1)));

        let mut cursor = reader.rows().first();
        cursor.seek_forward_until(|key: &i32| key >= &i);
        assert_eq!(cursor.item(), Some((i, a1)));

        let mut cursor = reader.rows().first();
        cursor.seek_forward_until(|key: &i32| key >= &(i - 1));
        assert_eq!(cursor.item(), Some((i, a1)));

        let mut cursor = reader.rows().last();
        cursor.rewind_to_value_or_smaller(&i);
        assert_eq!(cursor.item(), Some((i, a1)));

        let mut cursor = reader.rows().last();
        cursor.rewind_to_value_or_smaller(&(i + 1));
        assert_eq!(cursor.item(), Some((i, a1)));

        let mut cursor = reader.rows().last();
        cursor.seek_backward_until(|key: &i32| key <= &i);
        assert_eq!(cursor.item(), Some((i, a1)));

        let mut cursor = reader.rows().last();
        cursor.seek_backward_until(|key: &i32| key <= &(i + 1));
        assert_eq!(cursor.item(), Some((i, a1)));

        for j in c2range.clone() {
            let mut c2cursor = cursor.next_column().unwrap().first();
            c2cursor.advance_to_value_or_larger(&j);
            assert_eq!(c2cursor.item(), Some((j, a2)));

            let mut c2cursor = cursor.next_column().unwrap().first();
            c2cursor.advance_to_value_or_larger(&(j - 1));
            assert_eq!(c2cursor.item(), Some((j, a2)));

            let mut c2cursor = cursor.next_column().unwrap().first();
            c2cursor.seek_forward_until(|key: &i32| key >= &j);
            assert_eq!(c2cursor.item(), Some((j, a2)));

            let mut c2cursor = cursor.next_column().unwrap().first();
            c2cursor.seek_forward_until(|key: &i32| key >= &(j - 1));
            assert_eq!(c2cursor.item(), Some((j, a2)));

            let mut c2cursor = cursor.next_column().unwrap().last();
            c2cursor.rewind_to_value_or_smaller(&j);
            assert_eq!(c2cursor.item(), Some((j, a2)));

            let mut c2cursor = cursor.next_column().unwrap().last();
            c2cursor.rewind_to_value_or_smaller(&(j + 1));
            assert_eq!(c2cursor.item(), Some((j, a2)));

            let mut c2cursor = cursor.next_column().unwrap().last();
            c2cursor.seek_backward_until(|key: &i32| key <= &j);
            assert_eq!(c2cursor.item(), Some((j, a2)));

            let mut c2cursor = cursor.next_column().unwrap().last();
            c2cursor.seek_backward_until(|key: &i32| key <= &(j + 1));
            assert_eq!(c2cursor.item(), Some((j, a2)));
        }
    }

    let mut cursor = reader.rows().first();
    cursor.advance_to_value_or_larger(&end);
    assert_eq!(cursor.item(), None);

    let mut cursor = reader.rows().first();
    cursor.seek_forward_until(|key: &i32| key >= &end);
    assert_eq!(cursor.item(), None);

    let mut cursor = reader.rows().last();
    cursor.rewind_to_value_or_smaller(&-1);
    assert_eq!(cursor.item(), None);

    let mut cursor = reader.rows().last();
    cursor.seek_backward_until(|key: &i32| key <= &-1);
    assert_eq!(cursor.item(), None);
}

#[test]
fn writer_rejects_bad_rows() {
    let mut w = Writer::<i32, u64>::new(2);
    assert_eq!(w.write(2, 1, 0), Err(LayerError::NoSuchColumn));
    assert_eq!(w.write(0, 1, 0), Err(LayerError::EmptyGroup));
    w.write(1, 5, 0).unwrap();
    assert_eq!(w.write(1, 5, 0), Err(LayerError::OutOfOrder));
    w.write(0, 1, 0).unwrap();
    // a new group of column 1 may restart its keys
    w.write(1, 2, 0).unwrap();
    assert_eq!(w.write(0, 1, 0), Err(LayerError::OutOfOrder));
    assert!(matches!(w.close(), Err(LayerError::UnfinishedGroup)));
}

#[test]
fn cursor_steps_and_positions() {
    let mut w = Writer::<i64, i64>::new(1);
    for k in [10i64, 20, 30, 40] {
        w.write(0, k, k * 2).unwrap();
    }
    let f = w.close().unwrap();
    assert_eq!(f.n_columns(), 1);
    let g = f.rows();
    assert_eq!(g.len(), 4);
    let mut c = g.subset(1, 3).first();
    assert_eq!(c.item(), Some((20, 40)));
    assert_eq!(c.n_rows(), 2);
    c.move_next();
    assert_eq!(c.item(), Some((30, 60)));
    c.move_next();
    assert!(!c.has_value());
    c.move_prev();
    assert_eq!(c.item(), Some((30, 60)));
    c.move_prev();
    c.move_prev();
    assert_eq!(c.item(), None);
    c.move_next();
    assert_eq!(c.item(), Some((20, 40)));
    let mut n = g.nth(3);
    assert_eq!(n.position(), 3);
    assert_eq!(n.item(), Some((40, 80)));
    n.move_to_row(0);
    assert_eq!(n.item(), Some((10, 20)));
    assert!(n.next_column().is_none());
}

#[test]
fn file_column_layer_cursor() {
    let mut w = Writer::<i64, i64>::new(1);
    for k in 0..10i64 {
        w.write(0, k * 3, k - 4).unwrap();
    }
    let f = w.close().unwrap();
    let mut c = FileColumnLayerCursor::new(3, &f, (2, 8));
    assert_eq!(c.keys(), 6);
    assert!(c.valid());
    assert_eq!(*c.current_key(), 9);
    assert_eq!(*c.current_diff(), -1);
    assert_eq!(c.position(), 1);
    assert_eq!(c.take_current_item(), Some((9, -1)));
    assert_eq!(c.current_item(), &(12, 0));
    c.seek(&16);
    assert_eq!(c.item(), (&18, &2));
    c.seek_reverse(&16);
    assert_eq!(*c.current_key(), 15);
    c.step_reverse();
    assert_eq!(*c.current_key(), 12);
    c.seek_with(|k: &i64| *k > 19);
    assert_eq!(*c.current_key(), 21);
    c.seek_with_reverse(|k: &i64| *k % 2 == 0);
    assert_eq!(*c.current_key(), 18);
    c.fast_forward();
    assert_eq!(*c.current_key(), 21);
    c.step();
    assert!(!c.valid());
    c.rewind();
    assert_eq!(*c.current_key(), 6);
    c.move_to_row(4);
    assert_eq!(*c.current_key(), 18);
    c.reposition(0, 1);
    assert_eq!(c.take_current_item(), Some((0, -4)));
    assert!(!c.valid());
}

#[test]
fn next_column_gives_the_owned_group() {
    let mut w = Writer::<i64, i64>::new(2);
    w.write(1, 1, 0).unwrap();
    w.write(1, 2, 0).unwrap();
    w.write(0, 10, 0).unwrap();
    w.write(1, 7, 0).unwrap();
    w.write(0, 20, 0).unwrap();
    let f = w.close().unwrap();
    let mut c = f.rows().first();
    c.move_next();
    let g = c.next_column().unwrap();
    assert_eq!(g.len(), 1);
    assert_eq!(g.first().item(), Some((7, 0)));
    c.move_first();
    let g = c.next_column().unwrap();
    assert_eq!(g.len(), 2);
    assert_eq!(g.last().item(), Some((2, 0)));
}

#[test]
fn predicate_seeks_find_first_and_last() {
    let mut w = Writer::<i64, i64>::new(1);
    for k in 0..6i64 {
        w.write(0, k, 0).unwrap();
    }
    let f = w.close().unwrap();
    let mut c = FileColumnLayerCursor::new(0, &f, (0, 6));
    c.seek_with(|k: &i64| *k % 3 == 2);
    assert_eq!(*c.current_key(), 2);
    c.seek_with(|k: &i64| *k > 10);
    assert!(!c.valid());
    c.fast_forward();
    c.seek_with_reverse(|k: &i64| *k % 2 == 1);
    assert_eq!(*c.current_key(), 5);
    c.seek_with_reverse(|k: &i64| *k < 0);
    assert!(!c.valid());
}
