//! Requests, what comes back, and where it is kept.
use std::collections::HashMap;
use vesuvius::backfiller::{BackfillError, Reason, SourceNames, SourcePayload};
use vesuvius::chunk::ChunkKey;
use vesuvius::digest::{sha256_hex, to_hex};
use vesuvius::downloader::{
    download_outcome, range_header, source_outcome, status_meaning, url_host, DownloadError,
    Downloader, Reply, StatusMeaning,
};
use vesuvius::index::ChunkIndex;
use vesuvius::lifo::LifoQueue;
use vesuvius::remap_config::{AtlasUrlRewrite, RemapConfig};
use vesuvius::s3_auth::{
    fallback_region, is_s3_host, is_signable, next_refresh, refresh_turn, region_from_s3_url, CachedCreds,
    RefreshTurn, S3Signer,
};
use vesuvius::spill::{
    cap_from, is_hit, scan_total, PutStep, RawFile, RawStore, SpillStore, DEFAULT_RAW_CACHE_CAP,
    RAW_MIN_FREE_BYTES,
};

#[test]
fn region_parsing() {
    assert_eq!(
        region_from_s3_url("https://bkt.s3.us-east-2.amazonaws.com/a/b/0.0.0"),
        Some("us-east-2".to_string())
    );
    assert_eq!(
        region_from_s3_url("https://s3.eu-west-1.amazonaws.com/bkt/a/0"),
        Some("eu-west-1".to_string())
    );
    assert_eq!(
        region_from_s3_url("https://bkt.s3-us-west-2.amazonaws.com/a/0"),
        Some("us-west-2".to_string())
    );
    assert_eq!(region_from_s3_url("https://bkt.s3.amazonaws.com/a/0"), None);
}

#[test]
fn host_gating() {
    assert!(is_s3_host("https://bkt.s3.us-east-1.amazonaws.com/x"));
    assert!(!is_s3_host("https://dl.ash2txt.org/x"));
    assert!(!is_s3_host("not a url"));
}

#[test]
fn users_and_ports_do_not_hide_a_host() {
    assert!(is_s3_host("https://user@b.s3.amazonaws.com:443/x"));
    assert!(!is_s3_host("https://dl.ash2txt.org/s3.amazonaws.com"));
    assert!(!is_s3_host("https:///x"));
    assert!(!is_s3_host("https://evilamazonaws.com/x"));
    assert!(!is_s3_host("https://s3.evilamazonaws.com/x"));
    assert!(!is_s3_host("https://amazonaws.com/x"));
    assert!(!is_s3_host("https://ec2.us-east-1.amazonaws.com/x"));
    assert!(!is_s3_host("https://example.com?b.s3.amazonaws.com"));
    assert!(!is_s3_host("https://s3.amazonaws.com@example.com/x"));
    assert!(is_s3_host("https://s3.amazonaws.com"));
    assert!(is_s3_host("https://b.s3-us-west-2.amazonaws.com/x"));
    assert_eq!(
        region_from_s3_url("https://s3-data.s3.us-east-1.amazonaws.com/k"),
        Some("us-east-1".to_string())
    );
    assert_eq!(region_from_s3_url("https://s3-data.s3.amazonaws.com/k"), None);
    assert_eq!(
        region_from_s3_url("https://s3.x.s3-eu-west-1.amazonaws.com/k"),
        Some("eu-west-1".to_string())
    );
    assert_eq!(
        region_from_s3_url("https://b.bucket.vpce-1.s3.us-east-1.vpce.amazonaws.com/k"),
        Some("us-east-1".to_string())
    );
    assert_eq!(
        region_from_s3_url("https://b.s3.dualstack.us-west-2.amazonaws.com/k"),
        Some("us-west-2".to_string())
    );
    assert_eq!(region_from_s3_url("https://b.s3.dualstack.amazonaws.com/k"), None);
    assert_eq!(region_from_s3_url("https://b.x.s3.s3.amazonaws.com/k"), None);
    assert_eq!(region_from_s3_url("https://s3.local.example.org/k"), Some("local".to_string()));
    assert_eq!(region_from_s3_url("https://b.s3-near.example.org/k"), Some("near".to_string()));
    assert_eq!(region_from_s3_url("https://ec2.us-east-1.amazonaws.com/k"), None);
    let express = "https://bucket.s3express-use1-az5.us-east-1.amazonaws.com/k";
    assert!(is_s3_host(express));
    assert_eq!(region_from_s3_url(express), Some("us-east-1".to_string()));
    assert_eq!(region_from_s3_url("https://b.s3"), None);
    assert_eq!(region_from_s3_url("https://dl.ash2txt.org/"), None);
}

fn signer(creds: Option<CachedCreds>) -> S3Signer {
    let mut s = S3Signer::new("eu-central-1".to_string());
    if let Some(c) = creds {
        s.renew(c);
    }
    s
}

fn creds(token: Option<&str>) -> CachedCreds {
    CachedCreds {
        access_key_id: "someone".to_string(),
        secret_access_key: "something".to_string(),
        session_token: token.map(|t| t.to_string()),
    }
}

fn header<'a>(headers: &'a [(String, String)], name: &str) -> Option<&'a str> {
    headers.iter().find(|(n, _)| n.eq_ignore_ascii_case(name)).map(|(_, v)| v.as_str())
}

#[test]
fn only_urls_with_a_scheme_can_be_signed() {
    assert!(is_signable("https://example.com"));
    assert!(!is_signable("example.com"));
    assert!(!is_signable("/a://b"));
    assert!(!is_signable(""));
    let long = "(".repeat(30_000);
    assert!(is_signable(&format!("https://example.com/{}", long)));
    assert!(!is_signable(&format!("https://example.com/?{}", long)));
    let s = signer(Some(creds(None)));
    assert!(s.sign_get("https://example.com", 0).is_ok());
    assert!(s.sign_get("https://example.com?a=(", 0).is_ok());
}

#[test]
fn nothing_is_signed_without_credentials() {
    let r = signer(None).sign_get("https://b.s3.us-east-2.amazonaws.com/k", 1_440_938_160);
    assert_eq!(r, Err("no credentials available".to_string()));
}

#[test]
fn a_signature_names_its_day_region_and_service() {
    let s = signer(Some(creds(Some("a-token"))));
    let h = s.sign_get("https://b.s3.us-east-2.amazonaws.com/k", 1_440_938_160).unwrap();
    assert_eq!(header(&h, "x-amz-date"), Some("20150830T123600Z"));
    assert_eq!(header(&h, "x-amz-content-sha256"), Some("UNSIGNED-PAYLOAD"));
    assert_eq!(header(&h, "x-amz-security-token"), Some("a-token"));
    let a = header(&h, "authorization").unwrap();
    assert!(a.starts_with("AWS4-HMAC-SHA256 Credential=someone/20150830/us-east-2/s3/aws4_request"), "{}", a);
    let again = s.sign_get("https://b.s3.us-east-2.amazonaws.com/k", 1_440_938_160).unwrap();
    assert_eq!(h, again);
}

#[test]
fn a_host_without_a_region_is_signed_for_the_fallback() {
    let s = signer(Some(creds(None)));
    let h = s.sign_get("https://b.s3.amazonaws.com/k", 1_440_938_160).unwrap();
    assert!(header(&h, "authorization").unwrap().contains("/eu-central-1/s3/aws4_request"));
    assert_eq!(header(&h, "x-amz-security-token"), None);
    let e = s.sign_get("https://b.s3.amazonaws.com/a b", 0).unwrap_err();
    assert!(e.starts_with("signable request: "), "{}", e);
}

#[test]
fn fallback_regions() {
    assert_eq!(fallback_region(Some("a"), Some("b")), "a");
    assert_eq!(fallback_region(None, Some("b")), "b");
    assert_eq!(fallback_region(None, None), "us-east-1");
}

#[test]
fn credentials_are_renewed_in_time() {
    let s = 1_000_000_000u128;
    assert_eq!(next_refresh(None), 900 * s);
    assert_eq!(next_refresh(Some(1000 * s)), 700 * s);
    assert_eq!(next_refresh(Some(310 * s)), 60 * s);
    assert_eq!(next_refresh(Some(0)), 60 * s);
    assert_eq!(refresh_turn(true, None), RefreshTurn::Stop);
    assert_eq!(refresh_turn(false, None), RefreshTurn::Wait { nanos: 30 * s, ready: false });
    assert_eq!(refresh_turn(true, Some(None)), RefreshTurn::Wait { nanos: 900 * s, ready: true });
    assert_eq!(refresh_turn(false, Some(Some(1000 * s))), RefreshTurn::Wait { nanos: 700 * s, ready: false });
}

/// A directory of files with the times at which they were last written.
struct Dir {
    files: HashMap<String, (i128, Vec<u8>)>,
    clock: i128,
}

impl Dir {
    fn new() -> Dir {
        Dir { files: HashMap::new(), clock: 0 }
    }

    fn list(&self) -> Vec<RawFile> {
        self.files
            .iter()
            .map(|(path, (modified, bytes))| RawFile {
                name: path.rsplit('/').next().unwrap().to_string(),
                modified: *modified,
                len: bytes.len() as u64,
            })
            .collect()
    }

    fn evict(&mut self, store: &mut RawStore, extra: Option<u64>) {
        let files = self.list();
        let mut pass = store.begin_evict(&files, extra);
        while let Some(i) = pass.next() {
            let path = format!("{}/{}", store.root, files[i].name);
            let gone = self.files.remove(&path).is_some();
            pass.removed(&files, gone);
        }
        store.end_evict(&pass);
    }

    /// Whether the bytes were kept.
    fn put(&mut self, store: &mut RawStore, key: &str, bytes: &[u8]) -> bool {
        match store.put(bytes.len() as u64, None) {
            PutStep::Keep => {}
            _ => return false,
        }
        self.clock += 1;
        let tmp = store.tmp_path_for(key);
        self.files.insert(tmp.clone(), (self.clock, bytes.to_vec()));
        let moved = self.files.remove(&tmp).unwrap();
        self.files.insert(store.path_for(key), moved);
        if store.kept(bytes.len() as u64) {
            self.evict(store, None);
        }
        true
    }

    fn get(&self, store: &RawStore, key: &str) -> Option<&Vec<u8>> {
        let path = store.get(key)?;
        let (_, bytes) = self.files.get(&path)?;
        if is_hit(bytes.len() as u64) {
            Some(bytes)
        } else {
            None
        }
    }
}

#[test]
fn spilled_payloads_have_names_of_their_own() {
    let store = SpillStore::new("/tmp/spill");
    assert_eq!(store.spill_path(7, 0), "/tmp/spill/spill-7-0.bin");
    assert_eq!(store.spill_path(7, 1), "/tmp/spill/spill-7-1.bin");
}

#[test]
fn raw_store_roundtrip_and_miss() {
    let mut dir = Dir::new();
    let mut store = RawStore::with_cap("/r", 1 << 30, &dir.list());
    assert!(dir.get(&store, "https://x/shard#0+100").is_none());
    let bytes: Vec<u8> = (0..2048u32).map(|i| (i * 7 & 0xff) as u8).collect();
    assert!(dir.put(&mut store, "https://x/shard#0+100", &bytes));
    let hit = dir.get(&store, "https://x/shard#0+100").expect("hit after put");
    assert_eq!(&hit[..], &bytes[..]);
    assert!(dir.get(&store, "https://x/shard#100+100").is_none());
}

#[test]
fn raw_store_disabled_spills_anonymously() {
    let mut dir = Dir::new();
    let mut store = RawStore::with_cap("/r", 0, &dir.list());
    assert_eq!(store.put(64, None), PutStep::Spill);
    assert!(!dir.put(&mut store, "k", &[7u8; 64]));
    assert!(dir.get(&store, "k").is_none());
    assert!(dir.files.is_empty());
}

#[test]
fn raw_store_evicts_oldest_when_over_cap() {
    let mut dir = Dir::new();
    let mut store = RawStore::with_cap("/r", 4096, &dir.list());
    for i in 0..5u32 {
        dir.put(&mut store, &format!("key-{}", i), &[i as u8; 1024]);
    }
    assert!(dir.get(&store, "key-0").is_none(), "oldest entry should be evicted");
    assert!(dir.get(&store, "key-4").is_some(), "newest entry must survive");
    assert!(store.total <= 4096 * 90 / 100);
    assert_eq!(store.total, scan_total(&dir.list()));
}

#[test]
fn files_that_cannot_be_removed_are_passed_over() {
    let files: Vec<RawFile> = (0..4)
        .map(|i| RawFile { name: format!("f{}.raw", i), modified: 10 - i as i128, len: 100 })
        .collect();
    let mut store = RawStore::with_cap("/r", 250, &files);
    assert_eq!(store.total, 400);
    let mut pass = store.begin_evict(&files, None);
    assert_eq!(pass.target, 225);
    assert_eq!(pass.next(), Some(3));
    pass.removed(&files, false);
    assert_eq!(pass.next(), Some(2));
    pass.removed(&files, true);
    assert_eq!(pass.next(), Some(1));
    pass.removed(&files, true);
    assert_eq!(pass.next(), None);
    store.end_evict(&pass);
    assert_eq!(store.total, 200);
}

#[test]
fn a_full_disk_is_given_room_first() {
    let files = vec![
        RawFile { name: "a.raw".to_string(), modified: 2, len: 500 },
        RawFile { name: "b.raw".to_string(), modified: 1, len: 500 },
        RawFile { name: "c.tmp".to_string(), modified: 0, len: 500 },
        RawFile { name: ".raw".to_string(), modified: 0, len: 500 },
    ];
    let store = RawStore::with_cap("/r", 1 << 30, &files);
    assert_eq!(store.total, 1000);
    assert_eq!(store.put(10, Some(RAW_MIN_FREE_BYTES - 5)), PutStep::Keep);
    assert_eq!(store.put(4, Some(RAW_MIN_FREE_BYTES - 5)), PutStep::MakeRoom(5));
    assert_eq!(store.put_after_room(4, Some(RAW_MIN_FREE_BYTES - 5)), PutStep::Spill);
    assert_eq!(store.put_after_room(4, None), PutStep::Keep);
    let pass = store.begin_evict(&files, Some(300));
    assert_eq!(pass.target, 700);
    assert_eq!(pass.next(), Some(1));
}

#[test]
fn raw_caps() {
    assert_eq!(cap_from(None), DEFAULT_RAW_CACHE_CAP);
    assert_eq!(cap_from(Some(" 2 ")), 2 << 30);
    assert_eq!(cap_from(Some("0")), 0);
    assert_eq!(cap_from(Some("2.5")), DEFAULT_RAW_CACHE_CAP);
    assert_eq!(cap_from(Some("-1")), DEFAULT_RAW_CACHE_CAP);
    assert_eq!(RawStore::new("/r", Some("1"), &[]).cap_bytes, 1 << 30);
}

#[test]
fn keys_are_kept_under_their_digest() {
    let store = RawStore::with_cap("/r", 1, &[]);
    assert_eq!(
        store.path_for("abc"),
        "/r/ba7816bf8f01cfea414140de5dae2223b00361a396177a9cb410ff61f20015ad.raw"
    );
    assert_eq!(
        store.tmp_path_for("abc"),
        "/r/ba7816bf8f01cfea414140de5dae2223b00361a396177a9cb410ff61f20015ad.tmp"
    );
}

#[test]
fn digests_in_hexadecimal() {
    let d: String = sha256_hex(b"").into_iter().collect();
    assert_eq!(d, "e3b0c44298fc1c149afbf4c8996fb92427ae41e4649b934ca495991b7852b855");
    let h: String = to_hex(&[0, 15, 16, 255]).into_iter().collect();
    assert_eq!(h, "000f10ff");
}

fn rule(usage: Option<&str>, prefix: &str, to: Option<&str>) -> AtlasUrlRewrite {
    AtlasUrlRewrite {
        usage: usage.map(|u| u.to_string()),
        match_url_prefix: prefix.to_string(),
        rewrite_to: to.map(|t| t.to_string()),
    }
}

#[test]
fn the_first_matching_rule_rewrites() {
    let config = RemapConfig {
        atlas_url_rewrites: vec![
            rule(Some("archive"), "https://example.invalid", Some("https://a.test")),
            rule(None, "https://example.invalid", Some("https://example.test/volumes")),
            rule(None, "https://example.invalid/x", Some("never")),
            rule(None, "https://plain", None),
        ],
        volume_overrides: vec![],
    };
    assert_eq!(
        config.rewrite_atlas_url("standard", "https://example.invalid/x"),
        Some("https://example.test/volumes/x".to_string())
    );
    assert_eq!(
        config.rewrite_atlas_url("archive", "https://example.invalid/x"),
        Some("https://a.test/x".to_string())
    );
    assert_eq!(config.rewrite_atlas_url("u", "https://plain/y"), Some("https://plain/y".to_string()));
    assert_eq!(config.rewrite_atlas_url("u", "http://example.invalid"), None);
}

#[test]
fn volumes_are_replaced_by_their_id() {
    let config = RemapConfig {
        atlas_url_rewrites: vec![],
        volume_overrides: vec![
            ("1".to_string(), "https://one".to_string()),
            ("2".to_string(), "https://two".to_string()),
            ("1".to_string(), "https://uno".to_string()),
        ],
    };
    assert_eq!(config.volume_override_url("1"), Some("https://uno"));
    assert_eq!(config.volume_override_url("2"), Some("https://two"));
    assert_eq!(config.volume_override_url("3"), None);
}

#[test]
fn the_first_configuration_stays() {
    let mut slot = None;
    RemapConfig::get(&mut slot, None);
    assert_eq!(slot.as_ref().unwrap().volume_override_url("1"), None);
    let late = RemapConfig {
        atlas_url_rewrites: vec![],
        volume_overrides: vec![("1".to_string(), "x".to_string())],
    };
    RemapConfig::get(&mut slot, Some(late));
    assert_eq!(slot.as_ref().unwrap().volume_override_url("1"), None);
    assert_eq!(slot.unwrap().rewrite_atlas_url("u", "v"), None);
}

#[test]
fn replies() {
    let r = download_outcome(Reply::Answer { status: 200, body: Ok(5) });
    assert!(matches!(r, Ok(Some(5))));
    let r = download_outcome(Reply::Answer { status: 206, body: Ok(6) });
    assert!(matches!(r, Ok(Some(6))));
    assert!(matches!(download_outcome(Reply::Answer { status: 404, body: Ok(5) }), Ok(None)));
    assert!(matches!(download_outcome(Reply::Answer { status: 403, body: Ok(5) }), Ok(None)));
    let Err(DownloadError::Transient(e)) = download_outcome(Reply::Answer { status: 416, body: Ok(5) }) else {
        panic!("a failure")
    };
    assert_eq!(e, "status 416");
    let Err(DownloadError::Transient(e)) =
        download_outcome(Reply::Answer { status: 200, body: Err("cut".to_string()) })
    else {
        panic!("a failure")
    };
    assert_eq!(e, "read body: cut");
    let Err(DownloadError::Transient(e)) = download_outcome(Reply::Transport("gone".to_string())) else {
        panic!("a failure")
    };
    assert_eq!(e, "transport: gone");
    assert_eq!(status_meaning(500), StatusMeaning::Failed);
}

#[test]
fn downloads_as_sources() {
    assert!(matches!(source_outcome(Ok(Some(3))), Ok(Some(SourcePayload::Bytes(3)))));
    assert!(matches!(source_outcome(Ok(None)), Ok(None)));
    match source_outcome(Err(DownloadError::Transient("x".to_string()))) {
        Err(BackfillError::Transient(Reason::Reported(s))) => assert_eq!(s, "download: x"),
        _ => panic!("a failure that may pass"),
    }
}

#[test]
fn ranges_name_their_last_byte() {
    assert_eq!(range_header(10, 5), "bytes=10-14");
    assert_eq!(range_header(10, 0), "bytes=10-10");
    assert_eq!(range_header(u64::MAX, 9), format!("bytes={}-{}", u64::MAX, u64::MAX));
    assert_eq!(url_host("https://dl.ash2txt.org/a/b"), "dl.ash2txt.org");
}

#[test]
fn downloads_on_the_wire() {
    let mut d = Downloader::new();
    let a = ChunkKey::new(0, 1, 2, 3);
    let b = ChunkKey::new(0, 1, 2, 4);
    assert_eq!(d.begin(a), 1);
    assert_eq!(d.begin(a), 2);
    assert!(d.is_active_chunk(a));
    assert!(!d.is_active_chunk(b));
    d.end(a);
    assert!(d.is_active_chunk(a));
    d.end(a);
    assert!(!d.is_active_chunk(a));
}

#[test]
fn an_index_holds_what_was_put_in() {
    let mut index = ChunkIndex::new();
    let a = ChunkKey::new(0, 1, 2, 3);
    let b = ChunkKey::new(1, 1, 2, 3);
    index.insert(a, 7);
    index.insert(b, 8);
    index.insert(a, 9);
    assert_eq!(index.get(a), Some(9));
    assert_eq!(index.get(b), Some(8));
    index.remove(a);
    assert_eq!(index.get(a), None);
    assert_eq!(index.get(b), Some(8));
}

#[test]
fn names_keep_their_numbers() {
    let mut names = SourceNames::new();
    let a = names.intern("a");
    let b = names.intern("b");
    assert_ne!(a, b);
    assert_eq!(names.intern("a"), a);
    assert_eq!(names.intern("b"), b);
}

#[test]
fn the_newest_work_comes_first() {
    let mut q: LifoQueue<u32> = LifoQueue::new(100, true);
    let (a, b, c) = (ChunkKey::new(0, 0, 0, 0), ChunkKey::new(0, 1, 0, 0), ChunkKey::new(0, 2, 0, 0));
    q.submit(a, 1, 0);
    q.submit(b, 2, 10);
    q.submit(c, 3, 20);
    q.touch(a, 30);
    assert_eq!(q.pop(40).entry.unwrap().item, 1);
    assert_eq!(q.pop(40).entry.unwrap().item, 3);
    q.touch(c, 50);
    assert_eq!(q.len(), 1);
    assert_eq!(q.pop(40).entry.unwrap().item, 2);
    assert!(q.pop(40).entry.is_none());
}

#[test]
fn stale_work_is_dropped_unless_durable() {
    let mut q: LifoQueue<u32> = LifoQueue::new(100, true);
    let k = ChunkKey::new(0, 0, 0, 0);
    q.submit_durable(k, 1, 0);
    q.submit(k, 2, 0);
    q.submit(k, 3, 0);
    let p = q.pop(500);
    assert_eq!(p.entry.unwrap().item, 1);
    let dropped: Vec<u32> = p.dropped.iter().map(|e| e.item).collect();
    assert_eq!(dropped.len(), 2);
    q.submit(k, 4, 0);
    q.set_culling(false);
    assert_eq!(q.pop(500).entry.unwrap().item, 4);
}
