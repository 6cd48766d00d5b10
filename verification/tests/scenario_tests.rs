use pakserve::PakErrorKind;
use pakserve::pak::{PakFile, build_pak};
use pakserve::pipeline::ChunkSource;
use pakserve::service::ServiceState;

fn push_u32(out: &mut Vec<u8>, n: u32) {
    out.extend_from_slice(&n.to_le_bytes());
}

fn push_blob(out: &mut Vec<u8>, b: &[u8]) {
    push_u32(out, b.len() as u32);
    out.extend_from_slice(b);
}

fn manifest_pair(pkgs: &[(&[u8], &[&[u8]])], ids: &[&[u8]]) -> (Vec<u8>, Vec<u8>) {
    let mut app = Vec::new();
    push_u32(&mut app, pkgs.len() as u32);
    for (name, chunks) in pkgs {
        let mut pkg = Vec::new();
        push_blob(&mut pkg, name);
        push_u32(&mut pkg, chunks.len() as u32);
        for c in *chunks {
            push_blob(&mut pkg, c);
        }
        push_blob(&mut app, &pkg);
    }
    let mut chunk = Vec::new();
    push_u32(&mut chunk, ids.len() as u32);
    for id in ids {
        push_blob(&mut chunk, id);
    }
    (app, chunk)
}

struct MapSource {
    entries: Vec<(Vec<u8>, Vec<u8>)>,
}

impl ChunkSource for MapSource {
    fn fetch(&mut self, id: &Vec<u8>) -> Option<Vec<u8>> {
        self.entries.iter().find(|(k, _)| k == id).map(|(_, v)| v.clone())
    }

    fn pause(&mut self, _ms: u64) {}
}

#[test]
fn download_pak_reassembles_declared_chunks_in_order() {
    let (app, chunk) = manifest_pair(&[(b"base.pak", &[b"a", b"b"])], &[b"a", b"b"]);
    let service = ServiceState::from_manifests(&app, &chunk).unwrap();
    let mut src = MapSource {
        entries: vec![(b"a".to_vec(), b"AB".to_vec()), (b"b".to_vec(), b"CD".to_vec())],
    };
    let out = service.download_pak(&b"base.pak".to_vec(), &mut src).0.unwrap();
    assert_eq!(out, b"ABCD".to_vec());
}

#[test]
fn download_pak_of_zero_chunk_package_is_empty() {
    let (app, chunk) = manifest_pair(&[(b"empty.pak", &[])], &[]);
    let service = ServiceState::from_manifests(&app, &chunk).unwrap();
    let mut src = MapSource { entries: Vec::new() };
    let out = service.download_pak(&b"empty.pak".to_vec(), &mut src).0.unwrap();
    assert!(out.is_empty());
}

#[test]
fn download_pak_unknown_name_is_not_found() {
    let (app, chunk) = manifest_pair(&[(b"base.pak", &[b"a"])], &[b"a"]);
    let service = ServiceState::from_manifests(&app, &chunk).unwrap();
    let mut src = MapSource { entries: vec![(b"a".to_vec(), b"AB".to_vec())] };
    let err = service.download_pak(&b"other.pak".to_vec(), &mut src).0.err().unwrap();
    assert_eq!(err.kind, PakErrorKind::NotFound);
    assert_eq!(err.resource, b"other.pak".to_vec());
}

#[test]
fn download_pak_unfetchable_chunk_is_fetch_failed() {
    let (app, chunk) = manifest_pair(&[(b"base.pak", &[b"a", b"b"])], &[b"a", b"b"]);
    let service = ServiceState::from_manifests(&app, &chunk).unwrap();
    let mut src = MapSource { entries: vec![(b"a".to_vec(), b"AB".to_vec())] };
    let err = service.download_pak(&b"base.pak".to_vec(), &mut src).0.err().unwrap();
    assert_eq!(err.kind, PakErrorKind::FetchFailed);
    assert_eq!(err.resource, b"b".to_vec());
}

#[test]
fn get_pak_then_decrypt_reads_fixture_file() {
    let files = vec![PakFile { path: b"readme.txt".to_vec(), data: b"welcome aboard".to_vec() }];
    let payload = build_pak(&b"/content".to_vec(), &files, &b"secret".to_vec());
    let half = payload.len() / 2;
    let (app, chunk) = manifest_pair(&[(b"base.pak", &[b"a", b"b"])], &[b"a", b"b"]);
    let service = ServiceState::from_manifests(&app, &chunk).unwrap();
    let mut src = MapSource {
        entries: vec![
            (b"a".to_vec(), payload[..half].to_vec()),
            (b"b".to_vec(), payload[half..].to_vec()),
        ],
    };
    let mut pak = service.get_pak(&b"base.pak".to_vec(), &mut src).0.unwrap();
    assert!(!pak.consumed());
    let reader = pak.decrypt(&b"secret".to_vec()).unwrap();
    assert_eq!(reader.mount_point(), b"/content".to_vec());
    let names = reader.list_files();
    assert!(names.contains(&b"readme.txt".to_vec()));
    assert_eq!(
        reader.get_file_data(&b"readme.txt".to_vec()).unwrap(),
        b"welcome aboard".to_vec()
    );
}

#[test]
fn get_pak_wrong_key_then_redownload_recovers() {
    let files = vec![PakFile { path: b"readme.txt".to_vec(), data: b"v1".to_vec() }];
    let payload = build_pak(&b"/content".to_vec(), &files, &b"secret".to_vec());
    let (app, chunk) = manifest_pair(&[(b"base.pak", &[b"a"])], &[b"a"]);
    let service = ServiceState::from_manifests(&app, &chunk).unwrap();
    let mut src = MapSource { entries: vec![(b"a".to_vec(), payload)] };

    let mut first = service.get_pak(&b"base.pak".to_vec(), &mut src).0.unwrap();
    assert_eq!(first.decrypt(&b"nope".to_vec()).err().unwrap().kind, PakErrorKind::DecryptFailed);
    assert_eq!(
        first.decrypt(&b"secret".to_vec()).err().unwrap().kind,
        PakErrorKind::AlreadyConsumed
    );

    let mut second = service.get_pak(&b"base.pak".to_vec(), &mut src).0.unwrap();
    let reader = second.decrypt(&b"secret".to_vec()).unwrap();
    assert_eq!(reader.get_file_data(&b"readme.txt".to_vec()).unwrap(), b"v1".to_vec());
}

#[test]
fn assemble_pak_orders_completions_by_declared_position() {
    let (app, chunk) = manifest_pair(&[(b"base.pak", &[b"a", b"b", b"c"])], &[b"a", b"b", b"c"]);
    let service = ServiceState::from_manifests(&app, &chunk).unwrap();
    let parts = vec![
        (2usize, b"EF".to_vec()),
        (0, b"AB".to_vec()),
        (1, b"CD".to_vec()),
    ];
    let out = service.assemble_pak(&b"base.pak".to_vec(), &parts).unwrap();
    assert_eq!(out, b"ABCDEF".to_vec());
}

#[test]
fn assemble_pak_missing_completion_is_fetch_failed() {
    let (app, chunk) = manifest_pair(&[(b"base.pak", &[b"a", b"b"])], &[b"a", b"b"]);
    let service = ServiceState::from_manifests(&app, &chunk).unwrap();
    let parts = vec![(0usize, b"AB".to_vec())];
    let err = service.assemble_pak(&b"base.pak".to_vec(), &parts).err().unwrap();
    assert_eq!(err.kind, PakErrorKind::FetchFailed);
    assert_eq!(err.resource, b"base.pak".to_vec());
}
