use torrentinfo::{split_pieces, to_hex, Error, File, Torrent};

const KNOWN: &[u8] = b"d8:announce22:http://example.com/ann4:infod6:lengthi100e4:name8:test.txt12:piece lengthi16384e6:pieces20:AAAAAAAAAAAAAAAAAAAAee";

#[test]
fn known_vector_decodes() {
    let t = Torrent::from_buf(KNOWN).unwrap();
    assert_eq!(t.info().name().as_deref(), Some("test.txt"));
    assert_eq!(t.announce().as_deref(), Some("http://example.com/ann"));
    assert_eq!(*t.info().piece_length(), 16384);
    assert_eq!(t.total_size(), 100);
    assert_eq!(t.num_files(), 1);
    assert!(t.files().is_none());
    let digests = t.info().piece_digests().unwrap();
    assert_eq!(digests.len(), 1);
    assert_eq!(digests[0], vec![b'A'; 20]);
    assert_eq!(t.comment(), &None);
    assert_eq!(t.created_by(), &None);
    assert_eq!(t.creation_date(), &None);
    assert_eq!(t.encoding(), &None);
    assert_eq!(t.announce_list(), &None);
    assert_eq!(t.info().private(), &None);
}

#[test]
fn known_vector_info_hash() {
    let t = Torrent::from_buf(KNOWN).unwrap();
    let h = t.info_hash().unwrap();
    assert_eq!(h.len(), 20);
    assert_eq!(to_hex(&h), "e0f88e7421116c1359e9063ebcc8ac80da0fdac3");
    assert_eq!(t.info_hash().unwrap(), h);
}

#[test]
fn info_hash_ignores_key_order() {
    let shuffled: &[u8] = b"d4:infod6:pieces20:AAAAAAAAAAAAAAAAAAAA4:name8:test.txt12:piece lengthi16384e6:lengthi100ee8:announce22:http://example.com/anne";
    let a = Torrent::from_buf(KNOWN).unwrap();
    let b = Torrent::from_buf(shuffled).unwrap();
    assert_eq!(a.info_hash().unwrap(), b.info_hash().unwrap());
}

#[test]
fn multi_file_sizes_add_up() {
    let buf: &[u8] = b"d4:infod5:filesld6:lengthi10e4:pathl1:a1:beed6:lengthi20e4:pathl1:ceed6:lengthi30e4:pathl1:deee4:name4:root12:piece lengthi16e6:pieces0:ee";
    let t = Torrent::from_buf(buf).unwrap();
    assert_eq!(t.total_size(), 60);
    assert_eq!(t.num_files(), 3);
    let files = t.files().as_ref().unwrap();
    assert_eq!(*files[0].length(), 10);
    assert_eq!(files[0].path(), &["a".to_string(), "b".to_string()]);
}

#[test]
fn single_file_size() {
    let buf: &[u8] = b"d4:infod6:lengthi42e4:name1:x12:piece lengthi16e6:pieces0:ee";
    let t = Torrent::from_buf(buf).unwrap();
    assert_eq!(t.total_size(), 42);
    assert_eq!(t.num_files(), 1);
}

#[test]
fn missing_piece_fields_default() {
    let t = Torrent::from_buf(b"d4:infod4:name1:xee").unwrap();
    assert_eq!(*t.info().piece_length(), 0);
    assert!(t.info().pieces().is_empty());
    assert_eq!(t.total_size(), 0);
}

#[test]
fn optional_fields_are_read() {
    let buf: &[u8] = b"d13:announce-listl1:a1:be7:comment2:hi10:created by4:tool13:creation datei-5e8:encoding5:UTF-84:infod4:name1:x7:privatei1ee5:nodesll4:hosti6881eee9:httpseedsl1:see";
    let t = Torrent::from_buf(buf).unwrap();
    assert_eq!(t.comment().as_deref(), Some("hi"));
    assert_eq!(t.created_by().as_deref(), Some("tool"));
    assert_eq!(t.creation_date(), &Some(-5));
    assert_eq!(t.encoding().as_deref(), Some("UTF-8"));
    assert_eq!(t.announce_list(), &Some(vec!["a".to_string(), "b".to_string()]));
    assert_eq!(t.info().private(), &Some(1));
}

#[test]
fn truncated_input_is_structural() {
    assert_eq!(Torrent::from_buf(b"d8:announce").err(), Some(Error::StructuralError));
}

#[test]
fn wrong_kinds_are_type_mismatches() {
    assert_eq!(Torrent::from_buf(b"i1e").err(), Some(Error::TypeMismatchError));
    assert_eq!(
        Torrent::from_buf(b"d8:announcei1e4:infodee").err(),
        Some(Error::TypeMismatchError)
    );
    assert_eq!(
        Torrent::from_buf(b"d8:announce2:\xff\xfe4:infodee").err(),
        Some(Error::TypeMismatchError)
    );
    assert_eq!(
        Torrent::from_buf(b"d4:infod6:piecesi1eee").err(),
        Some(Error::TypeMismatchError)
    );
}

#[test]
fn missing_fields() {
    assert_eq!(Torrent::from_buf(b"de").err(), Some(Error::MissingFieldError));
    assert_eq!(
        Torrent::from_buf(b"d4:infod5:filesld4:pathl1:aeeeee").err(),
        Some(Error::MissingFieldError)
    );
}

#[test]
fn out_of_range_sizes() {
    assert_eq!(
        Torrent::from_buf(b"d4:infod6:lengthi-1eee").err(),
        Some(Error::RangeError)
    );
    assert_eq!(
        Torrent::from_buf(b"d4:infod12:piece lengthi-16eee").err(),
        Some(Error::RangeError)
    );
    assert_eq!(
        Torrent::from_buf(b"d4:infod7:privatei256eee").err(),
        Some(Error::RangeError)
    );
    assert_eq!(
        Torrent::from_buf(b"d4:infod5:filesld6:lengthi9223372036854775807e4:pathl1:aeed6:lengthi1e4:pathl1:beeeee").err(),
        Some(Error::RangeError)
    );
}

#[test]
fn pieces_split_into_digests() {
    let blob: Vec<u8> = (0..60u8).collect();
    let ds = split_pieces(&blob).unwrap();
    assert_eq!(ds.len(), 3);
    assert_eq!(ds[1], (20..40u8).collect::<Vec<u8>>());
    assert_eq!(split_pieces(&[]).unwrap().len(), 0);
}

#[test]
fn misaligned_pieces_fail() {
    let blob = vec![0u8; 41];
    assert_eq!(split_pieces(&blob).err(), Some(Error::PieceAlignmentError));
    assert_eq!(split_pieces(&blob[..19]).err(), Some(Error::PieceAlignmentError));
}

#[test]
fn file_new_keeps_length_and_path() {
    let f = File::new(7, vec!["dir".to_string(), "f.txt".to_string()]);
    assert_eq!(*f.length(), 7);
    assert_eq!(f.path().join("/"), "dir/f.txt");
}
