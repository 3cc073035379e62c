use dbsp::splitter::{LineSplitter, Splitter, StreamingSplitter};

fn feed(sp: &mut StreamingSplitter<LineSplitter>, bytes: &[u8], out: &mut Vec<Vec<u8>>) {
    let mut rest = bytes;
    while !rest.is_empty() {
        let room = sp.make_room().min(5);
        let n = room.min(rest.len());
        sp.added_data(&rest[..n]);
        rest = &rest[n..];
        while let Some(chunk) = sp.next() {
            out.push(chunk);
        }
    }
}

#[test]
fn records_split_across_small_reads() {
    let mut sp = StreamingSplitter::new(LineSplitter::new(), 5);
    let mut out = Vec::new();
    feed(&mut sp, b"foo,true,10\nbar,false,-10\n", &mut out);
    assert_eq!(out, vec![b"foo,true,10\n".to_vec(), b"bar,false,-10\n".to_vec()]);
    assert_eq!(sp.position(), 26);
    assert_eq!(sp.final_chunk(), None);
}

#[test]
fn final_chunk_holds_residue() {
    let mut sp = StreamingSplitter::new(LineSplitter::new(), 0);
    let mut out = Vec::new();
    feed(&mut sp, b"a\nbc", &mut out);
    assert_eq!(out, vec![b"a\n".to_vec()]);
    assert_eq!(sp.final_chunk(), Some(b"bc".to_vec()));
    assert_eq!(sp.final_chunk(), None);
}

#[test]
fn replay_after_seek_gives_same_records() {
    let data = b"x1\nx22\nx333\n";
    let mut sp = StreamingSplitter::new(LineSplitter::new(), 4);
    let mut first = Vec::new();
    feed(&mut sp, data, &mut first);
    sp.seek(3);
    assert_eq!(sp.position(), 3);
    let mut again = Vec::new();
    feed(&mut sp, &data[3..], &mut again);
    assert_eq!(again, first[1..].to_vec());
}

#[test]
fn line_splitter_finds_newline() {
    let mut s = LineSplitter::new();
    assert_eq!(s.input(b"ab\ncd"), Some(3));
    assert_eq!(s.input(b"abcd"), None);
    s.clear();
}

#[test]
fn take_record_uses_the_answer() {
    let mut sp = StreamingSplitter::new(LineSplitter::new(), 16);
    sp.added_data(b"abcdef");
    // the splitter saw no record end in these bytes
    assert_eq!(sp.take_record(None), None);
    sp.added_data(b"gh");
    // a record ends one byte into the newly offered bytes
    assert_eq!(sp.take_record(Some(1)), Some(b"abcdefg".to_vec()));
    assert_eq!(sp.position(), 7);
    assert_eq!(sp.stream_end(), 8);
    assert_eq!(sp.final_chunk(), Some(b"h".to_vec()));
    assert_eq!(sp.position(), 8);
}

#[test]
fn reading_goes_on_after_final_chunk() {
    let mut sp = StreamingSplitter::new(LineSplitter::new(), 8);
    sp.added_data(b"ab");
    assert_eq!(sp.final_chunk(), Some(b"ab".to_vec()));
    let room = sp.make_room();
    assert!(room >= 2);
    sp.added_data(b"c\n");
    assert_eq!(sp.next(), Some(b"c\n".to_vec()));
    assert_eq!(sp.position(), 4);
}
