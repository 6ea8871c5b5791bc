use torrent_rs::config::ClientConfig;
use torrent_rs::stats::{throughput, DownloadStats};
use torrent_rs::torrent::{File, Info, Keys, Torrent};

fn torrent(keys: Keys, hash: Option<[u8; 20]>) -> Torrent {
    Torrent {
        announce: "http://tracker.example/announce".to_string(),
        info: Info {
            name: "mock_torrent".to_string(),
            piece_length: 256 * 1024,
            pieces: vec![[0u8; 20]],
            keys,
        },
        info_hash: hash,
    }
}

#[test]
fn lengths_of_single_and_multi_file_torrents() {
    let single = torrent(Keys::SingleFile { length: 1024 * 1024 }, None);
    assert_eq!(single.length(), 1048576);
    assert_eq!(single.file_sizes(), vec![1048576]);
    let multi = torrent(
        Keys::MultiFile {
            files: vec![
                File { length: 100, path: vec!["a".to_string()] },
                File { length: 50, path: vec!["b".to_string(), "c".to_string()] },
            ],
        },
        None,
    );
    assert_eq!(multi.length(), 150);
    assert_eq!(multi.file_sizes(), vec![100, 50]);
    let huge = torrent(
        Keys::MultiFile {
            files: vec![
                File { length: usize::MAX, path: vec![] },
                File { length: 1, path: vec![] },
            ],
        },
        None,
    );
    assert_eq!(huge.length(), usize::MAX);
}

#[test]
fn urlencoded_info_hash() {
    let mut h = [0u8; 20];
    h[0] = 0x1B;
    h[1] = 0xD0;
    let t = torrent(Keys::SingleFile { length: 1 }, Some(h));
    let s = t.urlencode_infohash().unwrap();
    assert!(s.starts_with("%1B%D0%00"));
    assert_eq!(s.len(), 60);
    assert!(torrent(Keys::SingleFile { length: 1 }, None).urlencode_infohash().is_none());
}

#[test]
fn stats_count_up() {
    let mut s = DownloadStats::new(7);
    s.add_downloaded(100);
    s.add_downloaded(28);
    s.add_uploaded(3);
    s.increment_pieces();
    assert_eq!(s.downloaded_bytes(), 128);
    assert_eq!(s.uploaded_bytes(), 3);
    assert_eq!(s.pieces_completed(), 1);
    assert_eq!(s.total_pieces(), 7);
    s.add_downloaded(u64::MAX);
    assert_eq!(s.downloaded_bytes(), 127);
}

#[test]
fn throughput_per_second() {
    assert_eq!(throughput(5000, 0), 0);
    assert_eq!(throughput(5000, 2000), 2500);
    assert_eq!(throughput(u64::MAX, 1), u64::MAX);
}

#[test]
fn config_defaults_and_builders() {
    let c = ClientConfig::default();
    assert_eq!(c.download_path, ".");
    assert_eq!(c.listen_port, 6881);
    assert_eq!(c.max_peers, 50);
    assert_eq!(c.max_requests_per_peer, 5);
    assert_eq!(c.connection_timeout_secs, 5);
    assert_eq!(c.response_timeout_secs, 5);
    assert_eq!(c.request_timeout_secs, 30);
    let c = c
        .with_download_path("./downloads".to_string())
        .with_max_peers(8)
        .with_listen_port(7000);
    assert_eq!(c.download_path, "./downloads");
    assert_eq!(c.max_peers, 8);
    assert_eq!(c.listen_port, 7000);
    assert_eq!(c.max_requests_per_peer, 5);
}
