use bittorrent_client::client::{
    check_handshake_response, choked_after, expect_bitfield, hex_string, initial_handshake,
};
use bittorrent_client::download::work_items;
use bittorrent_client::handshake::Handshake;
use bittorrent_client::message::{Bitfield, Message};
use bittorrent_client::metainfo::Info;
use bittorrent_client::piece::{store_piece, Piece, PieceCount};
use bittorrent_client::work::{SharedQueue, Work};
use bittorrent_client::worker::{
    accept_work, block_size, check_integrity, keep_alive_due, opening_messages, settle,
    PieceDownload, PieceOutcome, Settled, DEFAULT_BLOCK_SIZE,
};
use bittorrent_client::{PEER_ID, PSTR};

fn work_for(indices: &[u32], length: u32, hash: Vec<u8>) -> Vec<Work> {
    indices
        .iter()
        .map(|index| Work {
            index: *index,
            length,
            hash: hash.clone(),
        })
        .collect()
}

fn sha1(data: &[u8]) -> Vec<u8> {
    sha1_smol::Sha1::from(data).digest().bytes().to_vec()
}

/// The file data the worker tests download: piece `k` is the template with `10 * k` added.
fn file_data(no_of_pieces: usize, piece_template: &[u8]) -> Vec<u8> {
    let mut data = Vec::new();
    for count in 0..no_of_pieces {
        data.extend(piece_template.iter().map(|val| val + count as u8 * 10));
    }
    data
}

/// Drives a piece download the way a worker does, answering each request with the block of
/// `data` it asks for; returns the requests sent and the piece received.
fn download_from(work: &Work, data: &[u8]) -> (Vec<Message>, Vec<u8>) {
    let mut download = PieceDownload::new(work);
    let mut choked = true;
    choked = choked_after(choked, &Message::Unchoke);
    let mut requests = Vec::new();
    while !download.is_complete() {
        let mut pending = Vec::new();
        while let Some(request) = download.next_request(choked) {
            download.request_sent();
            pending.push(request);
        }
        for request in &pending {
            if let Message::Request { index, begin, length } = request {
                let start = *begin as usize;
                let end = std::cmp::min(start + *length as usize, data.len());
                download.receive(&Message::Piece {
                    index: *index,
                    begin: *begin,
                    block: data[start..end].to_vec(),
                });
            }
        }
        requests.extend(pending);
    }
    (requests, download.into_buf())
}

#[test]
fn tasks_can_get_work_from_queue() {
    let indices = (0..16).collect::<Vec<u32>>();
    let mut queue = SharedQueue::new(work_for(&indices, 16, vec![0x01]));
    let mut task_one_work_indices = Vec::new();
    let mut task_two_work_indices = Vec::new();
    loop {
        match queue.dequeue() {
            Some(work) => task_one_work_indices.push(work.index),
            None => break,
        }
        match queue.dequeue() {
            Some(work) => task_two_work_indices.push(work.index),
            None => break,
        }
    }
    task_one_work_indices.append(&mut task_two_work_indices);
    task_one_work_indices.sort();
    assert_eq!(indices, task_one_work_indices);
}

#[test]
fn tasks_can_put_work_onto_queue() {
    let indices = (0..16).collect::<Vec<u32>>();
    let extra_indices = (16..24).collect::<Vec<u32>>();
    let mut expected_indices = indices.clone();
    expected_indices.append(&mut extra_indices.clone());

    let mut queue = SharedQueue::new(work_for(&indices, 16, vec![0x01]));
    let mut extra_work = work_for(&extra_indices, 32, vec![0x04]).into_iter();
    let mut taken = Vec::new();
    loop {
        if let Some(work) = extra_work.next() {
            queue.enqueue(work);
        }
        match queue.dequeue() {
            Some(work) => taken.push(work.index),
            None => break,
        }
    }
    taken.sort();
    assert_eq!(expected_indices, taken);
}

#[test]
fn queue_gives_work_in_order_and_put_back_work_next() {
    let mut queue = SharedQueue::new(work_for(&[5, 6, 7], 1, vec![]));
    let first = queue.dequeue().unwrap();
    assert_eq!(first.index, 5);
    queue.enqueue(first);
    assert_eq!(queue.dequeue().unwrap().index, 5);
    assert_eq!(queue.dequeue().unwrap().index, 6);
    assert_eq!(queue.dequeue().unwrap().index, 7);
    assert!(queue.dequeue().is_none());
}

#[test]
fn receiver_puts_pieces_together_correctly() {
    const PIECE_LEN: usize = 128;
    let source_data = (0..PIECE_LEN as u8).collect::<Vec<u8>>().repeat(8);
    let mut receiver_buf = vec![0; 1024];
    let mut count = PieceCount::new(8);
    let order = [1u32, 3, 0, 2, 5, 7, 4, 6];
    let mut completions = Vec::new();
    for index in order {
        let start = index as usize * PIECE_LEN;
        let piece = Piece {
            index,
            buf: source_data[start..start + PIECE_LEN].to_vec(),
        };
        store_piece(&mut receiver_buf, PIECE_LEN, &piece);
        completions.push(count.record());
    }
    assert_eq!(&receiver_buf[..], &source_data[..]);
    assert_eq!(completions, vec![false, false, false, false, false, false, false, true]);
}

#[test]
fn receiver_handles_truncated_last_piece() {
    const PIECE_LEN: usize = 128;
    let mut source_data = (0..PIECE_LEN as u8).collect::<Vec<u8>>().repeat(8);
    let _ = source_data.split_off(source_data.len() - 4);
    let mut receiver_buf = vec![0; PIECE_LEN * 7 + PIECE_LEN - 4];
    for index in [1u32, 3, 0, 2, 5, 7, 4, 6] {
        let start = index as usize * PIECE_LEN;
        let end = std::cmp::min(start + PIECE_LEN, source_data.len());
        let piece = Piece {
            index,
            buf: source_data[start..end].to_vec(),
        };
        store_piece(&mut receiver_buf, PIECE_LEN, &piece);
    }
    assert_eq!(&receiver_buf[..], &source_data[..]);
}

#[test]
fn block_size_follows_piece_length() {
    assert_eq!(block_size(64, 0), 32);
    assert_eq!(block_size(64, 32), 32);
    assert_eq!(block_size(5, 0), 2);
    assert_eq!(block_size(5, 2), 3);
    assert_eq!(block_size(1, 0), 1);
    assert_eq!(block_size(18_000, 0), DEFAULT_BLOCK_SIZE);
    assert_eq!(block_size(18_000, 16_384), 1_616);
    assert_eq!(block_size(40_000, 16_384), DEFAULT_BLOCK_SIZE);
}

#[test]
fn download_sends_unchoke_and_interested_messages_to_peer() {
    let messages = opening_messages();
    assert_eq!(messages, vec![Message::Unchoke, Message::Interested]);
    assert_eq!(messages[0].serialise(), vec![0, 0, 0, 1, 1]);
    assert_eq!(messages[1].serialise(), vec![0, 0, 0, 1, 2]);
}

#[test]
fn single_worker_downloads_all_two_pieces_from_peer() {
    const NO_OF_PIECES: usize = 2;
    const PIECE_LEN: usize = 64;
    let piece_template = (0..PIECE_LEN as u8).collect::<Vec<u8>>();
    let source_data = file_data(NO_OF_PIECES, &piece_template);
    let mut receiver_buf = vec![0; NO_OF_PIECES * PIECE_LEN];
    for index in 0..NO_OF_PIECES as u32 {
        let piece = &source_data[index as usize * PIECE_LEN..(index as usize + 1) * PIECE_LEN];
        let work = Work { index, length: PIECE_LEN as u32, hash: sha1(piece) };
        let (requests, buf) = download_from(&work, piece);
        assert_eq!(
            requests,
            vec![
                Message::Request { index: index as u64, begin: 0, length: 32 },
                Message::Request { index: index as u64, begin: 32, length: 32 },
            ]
        );
        let mut queue = SharedQueue::new(vec![]);
        match settle(&mut queue, work, PieceOutcome::Downloaded(buf)) {
            Settled::Delivered { have, piece } => {
                assert_eq!(have, Message::Have(index as u64));
                store_piece(&mut receiver_buf, PIECE_LEN, &piece);
            }
            _ => panic!("Expected delivered piece"),
        }
    }
    assert_eq!(receiver_buf, source_data);
}

#[test]
fn single_worker_downloads_pieces_larger_than_default_block_size_but_not_divisible_by_it() {
    const PIECE_LEN: u32 = 18_000;
    let source_data = file_data(2, &[5; PIECE_LEN as usize]);
    let piece = &source_data[PIECE_LEN as usize..];
    let work = Work { index: 1, length: PIECE_LEN, hash: sha1(piece) };
    let (requests, buf) = download_from(&work, piece);
    const SECOND_BLOCK_LEN: u32 = PIECE_LEN - DEFAULT_BLOCK_SIZE;
    assert_eq!(
        requests,
        vec![
            Message::Request { index: 1, begin: 0, length: DEFAULT_BLOCK_SIZE as u64 },
            Message::Request {
                index: 1,
                begin: DEFAULT_BLOCK_SIZE as u64,
                length: SECOND_BLOCK_LEN as u64
            },
        ]
    );
    assert_eq!(buf, piece);
    assert!(check_integrity(&work, &buf));
}

#[test]
fn no_request_is_sent_while_choked_and_at_most_five_await_answers() {
    let work = Work { index: 0, length: 16_384 * 8, hash: vec![] };
    let mut download = PieceDownload::new(&work);
    assert!(download.next_request(true).is_none());
    let mut sent = 0;
    while let Some(_) = download.next_request(false) {
        download.request_sent();
        sent += 1;
    }
    assert_eq!(sent, 5);
    download.receive(&Message::Have(3));
    assert!(download.next_request(false).is_none());
    download.receive(&Message::Piece { index: 0, begin: 0, block: vec![1; 16_384] });
    assert_eq!(
        download.next_request(false),
        Some(Message::Request { index: 0, begin: 5 * 16_384, length: 16_384 })
    );
    assert!(!download.is_complete());
}

#[test]
fn integrity_check_failure_causes_rerequest_of_piece() {
    let piece_template = (0..64u8).collect::<Vec<u8>>();
    let source_data = file_data(2, &piece_template);
    let work = Work { index: 0, length: 64, hash: sha1(&source_data[..64]) };
    let mut corrupted = source_data[..64].to_vec();
    corrupted[3] ^= 0xFF;
    assert!(!check_integrity(&work, &corrupted));
    let mut queue = SharedQueue::new(vec![Work { index: 1, length: 64, hash: vec![] }]);
    match settle(&mut queue, work, PieceOutcome::Downloaded(corrupted)) {
        Settled::Requeued => {}
        _ => panic!("Expected the work back on the queue"),
    }
    assert_eq!(queue.dequeue().unwrap().index, 0);
    assert_eq!(queue.dequeue().unwrap().index, 1);
}

#[test]
fn send_have_message_to_peer_if_piece_downloaded_and_passed_integrity_check() {
    let piece = (0..64u8).collect::<Vec<u8>>();
    let work = Work { index: 7, length: 64, hash: sha1(&piece) };
    let mut queue = SharedQueue::new(vec![]);
    match settle(&mut queue, work, PieceOutcome::Downloaded(piece.clone())) {
        Settled::Delivered { have, piece: delivered } => {
            assert_eq!(have.serialise(), Message::Have(7).serialise());
            assert_eq!(delivered.index, 7);
            assert_eq!(delivered.buf, piece);
        }
        _ => panic!("Expected delivered piece"),
    }
    assert!(queue.dequeue().is_none());
}

#[test]
fn errored_worker_puts_work_back_onto_queue_before_exiting_and_download_can_complete() {
    let mut queue = SharedQueue::new(vec![]);
    let work = Work { index: 1, length: 64, hash: vec![] };
    match settle(&mut queue, work, PieceOutcome::Failed) {
        Settled::Abandoned => {}
        _ => panic!("Expected the connection to be given up"),
    }
    let work = queue.dequeue().unwrap();
    assert_eq!(work.index, 1);
    match settle(&mut queue, work, PieceOutcome::TimedOut) {
        Settled::Requeued => {}
        _ => panic!("Expected the work back on the queue"),
    }
    assert_eq!(queue.dequeue().unwrap().index, 1);
}

#[test]
fn send_keep_alive_if_empty_queue_but_download_not_yet_complete() {
    assert!(keep_alive_due(None));
    assert!(!keep_alive_due(Some(0)));
    assert!(!keep_alive_due(Some(120)));
    assert!(keep_alive_due(Some(121)));
}

#[test]
fn work_the_peer_lacks_goes_back_to_the_queue() {
    let bitfield = Bitfield::new(vec![0b01000000]);
    let mut queue = SharedQueue::new(vec![]);
    let taken = accept_work(&mut queue, &bitfield, Work { index: 1, length: 4, hash: vec![] });
    assert_eq!(taken.map(|w| w.index), Some(1));
    assert!(queue.dequeue().is_none());
    let taken = accept_work(&mut queue, &bitfield, Work { index: 0, length: 4, hash: vec![] });
    assert!(taken.is_none());
    assert_eq!(queue.dequeue().unwrap().index, 0);
}

#[test]
fn odd_and_one_byte_pieces_are_requested_in_blocks_that_tile_them() {
    for (length, expected) in [(5u32, vec![(0u64, 2u64), (2, 3)]), (1, vec![(0, 1)])] {
        let data: Vec<u8> = (0..length as u8).map(|b| b + 1).collect();
        let work = Work { index: 3, length, hash: sha1(&data) };
        let (requests, buf) = download_from(&work, &data);
        let blocks: Vec<(u64, u64)> = requests
            .iter()
            .map(|r| match r {
                Message::Request { begin, length, .. } => (*begin, *length),
                _ => panic!("Expected a request"),
            })
            .collect();
        assert_eq!(blocks, expected);
        assert_eq!(buf, data);
        assert!(check_integrity(&work, &buf));
    }
}

#[test]
fn last_work_item_is_the_rest_of_the_file() {
    let info = Info {
        name: "f".to_string(),
        length: 150,
        piece_length: 64,
        pieces: (0..60).collect(),
    };
    let work = work_items(&info);
    let lengths: Vec<u32> = work.iter().map(|w| w.length).collect();
    assert_eq!(lengths, vec![64, 64, 22]);
}

#[test]
fn work_items_cover_each_piece_hash() {
    let info = Info {
        name: "f".to_string(),
        length: 128,
        piece_length: 64,
        pieces: (0..40).collect(),
    };
    let work = work_items(&info);
    assert_eq!(work.len(), 2);
    assert_eq!((work[0].index, work[0].length), (0, 64));
    assert_eq!((work[1].index, work[1].length), (1, 64));
    assert_eq!(work[1].hash, (20..40).collect::<Vec<u8>>());
}

#[test]
fn return_error_if_incorrect_info_hash_in_handshake_response() {
    let info_hash = (0x00..0x14).collect::<Vec<_>>();
    let incorrect_info_hash = (0x01..0x15).collect::<Vec<_>>();
    let their_peer_id = "-DEF123-efgh12345678";

    let expected_initial_handshake = initial_handshake(info_hash.clone());
    let bad_response_handshake = Handshake::new(
        PSTR.to_string(),
        incorrect_info_hash.clone(),
        their_peer_id.into(),
    );
    let res = check_handshake_response(&expected_initial_handshake, bad_response_handshake);

    let expected_err_msg = format!(
        "Info hash mismatch: us={}, peer={}",
        info_hash
            .iter()
            .map(|val| format!("{:02x}", val))
            .collect::<Vec<String>>()
            .join(""),
        incorrect_info_hash
            .iter()
            .map(|val| format!("{:02x}", val))
            .collect::<Vec<String>>()
            .join(""),
    );
    assert!(res.is_err_and(|val| val == expected_err_msg));
}

#[test]
fn return_error_if_first_message_is_not_a_bitfield() {
    let len: u32 = 1;
    let id = 0x03;
    let mut incorrect_first_message_data = u32::to_be_bytes(len).to_vec();
    incorrect_first_message_data.push(id);
    let (message, _) = Message::deserialise(&incorrect_first_message_data).unwrap();
    let res = expect_bitfield(message);
    let expected_err_msg = "First message not bitfield";
    assert!(res.is_err_and(|val| val == expected_err_msg));
}

#[test]
fn return_client_if_successful_handshake_and_receive_bitifield_message() {
    let info_hash = (0x00..0x14).collect::<Vec<_>>();
    let their_peer_id = b"-DEF123-efgh12345678";
    let initial = initial_handshake(info_hash.clone());
    assert_eq!(initial.serialise(), Handshake::new(PSTR.to_string(), info_hash.clone(), PEER_ID.into()).serialise());
    let response_handshake =
        Handshake::new(PSTR.to_string(), info_hash.clone(), their_peer_id.to_vec());
    let peer_id = check_handshake_response(&initial, response_handshake).unwrap();
    assert_eq!(peer_id, their_peer_id);

    let len: u32 = 2;
    let id = 0x05;
    let payload = vec![0x10];
    let mut bitfield_message = u32::to_be_bytes(len).to_vec();
    bitfield_message.push(id);
    bitfield_message.append(&mut payload.clone());
    let (message, _) = Message::deserialise(&bitfield_message).unwrap();
    let bitfield = expect_bitfield(message).unwrap();
    assert_eq!(bitfield, Bitfield::new(payload));
}

#[test]
fn client_sets_choked_false_if_peer_sends_unchoke_message() {
    let choked = choked_after(true, &Message::Unchoke);
    assert!(!choked);
}

#[test]
fn client_sets_choked_true_if_peer_sends_choke_message() {
    let choked = choked_after(true, &Message::Unchoke);
    let choked = choked_after(choked, &Message::Choke);
    assert!(choked);
    assert!(choked_after(choked, &Message::Have(1)));
}

#[test]
fn hex_string_is_lowercase_two_digits_per_byte() {
    assert_eq!(hex_string(&[0x00, 0x0f, 0xa0, 0xff]), "000fa0ff");
}

#[test]
fn blocks_must_fit_the_piece_and_answer_a_request() {
    let work = Work { index: 0, length: 64, hash: vec![] };
    let mut download = PieceDownload::new(&work);
    let block = Message::Piece { index: 0, begin: 32, block: vec![1; 32] };
    assert!(!download.fits(&block));
    download.next_request(false).unwrap();
    download.request_sent();
    assert!(download.fits(&block));
    assert!(!download.fits(&Message::Piece { index: 0, begin: 40, block: vec![1; 32] }));
    assert!(download.fits(&Message::KeepAlive));
    download.receive(&block);
    assert!(!download.is_complete());
    let buf = download.into_buf();
    assert_eq!(&buf[..32], &[0; 32][..]);
    assert_eq!(&buf[32..], &[1; 32][..]);
}
